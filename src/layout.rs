//! Layout of the rows of a dump: blocks of eight cells, the data row and the
//! column-index header.

use crate::bridge::push_char;
use crate::hex::{lemma_hex_text_digits, address_text, address_to_hex, byte_to_hex, hex_text};
use crate::text::{byte_to_string, lower_text, lowercase_ascii, text_char};
use vstd::prelude::*;
use vstd::string::*;

verus! {

/// The row widths, in bytes, that a dump can be made with.
pub open spec fn valid_columns(columns: nat) -> bool {
    columns == 8 || columns == 16 || columns == 32 || columns == 64
}

/// The parts, with `sep` between each two of them.
pub open spec fn join(parts: Seq<Seq<char>>, sep: Seq<char>) -> Seq<char>
    decreases parts.len(),
{
    if parts.len() == 0 {
        seq![]
    } else if parts.len() == 1 {
        parts[0]
    } else {
        join(parts.drop_last(), sep) + sep + parts.last()
    }
}

/// The text of each string.
pub open spec fn views(v: Seq<String>) -> Seq<Seq<char>> {
    v.map_values(|s: String| s@)
}

/// How a single byte is shown: as two hexadecimal digits, or as text.
#[derive(Clone, Copy, PartialEq, Eq, Structural)]
pub enum Render {
    Hex,
    Text,
}

pub open spec fn render_text(render: Render, b: u8) -> Seq<char> {
    match render {
        Render::Hex => hex_text(b),
        Render::Text => seq![text_char(b)],
    }
}

/// Position `j` of a row: the rendered byte where the data reaches that
/// far, the filler where it does not.
pub open spec fn cell(data: Seq<u8>, j: int, render: Render, filler: Seq<char>) -> Seq<char> {
    if 0 <= j < data.len() {
        render_text(render, data[j])
    } else {
        filler
    }
}

/// Block `b` of a row: the eight cells from `8 * b` on, joined by `sep`.
pub open spec fn block_text(
    data: Seq<u8>,
    b: int,
    render: Render,
    sep: Seq<char>,
    filler: Seq<char>,
) -> Seq<char> {
    join(Seq::new(8, |i: int| cell(data, 8 * b + i, render, filler)), sep)
}

/// The `columns / 8` blocks of a row.
pub open spec fn blocks(
    data: Seq<u8>,
    render: Render,
    columns: nat,
    sep: Seq<char>,
    filler: Seq<char>,
) -> Seq<Seq<char>> {
    Seq::new(columns / 8, |b: int| block_text(data, b, render, sep, filler))
}

/// The hexadecimal part of a row: cells split by one space, blocks by two,
/// missing bytes shown as `..`.
pub open spec fn hex_channel(data: Seq<u8>, columns: nat) -> Seq<char> {
    join(blocks(data, Render::Hex, columns, seq![' '], seq!['.', '.']), seq![' ', ' '])
}

/// The text part of a row: one character per position, missing bytes shown
/// as `.`, with nothing between cells or blocks.
pub open spec fn text_channel(data: Seq<u8>, columns: nat) -> Seq<char> {
    join(blocks(data, Render::Text, columns, seq![], seq!['.']), seq![])
}

/// A line of three fields split by two spaces and ended by a newline.
pub open spec fn row_text(address: Seq<char>, data: Seq<char>, text: Seq<char>) -> Seq<char> {
    address + seq![' ', ' '] + data + seq![' ', ' '] + text + seq!['\n']
}

pub open spec fn data_row_text(address: u32, data: Seq<u8>, columns: nat) -> Seq<char> {
    row_text(address_text(address), hex_channel(data, columns), text_channel(data, columns))
}

pub open spec fn spaces(n: nat) -> Seq<char> {
    Seq::new(n, |i: int| ' ')
}

/// The positions `0, 1, ..., columns - 1` as bytes.
pub open spec fn indices(columns: nat) -> Seq<u8> {
    Seq::new(columns, |i: int| i as u8)
}

/// The header: the positions of a row shown as its bytes would be, under
/// blank address and text fields, all in lower case.
pub open spec fn header_text(columns: nat) -> Seq<char> {
    lower_text(row_text(spaces(10), hex_channel(indices(columns), columns), spaces(columns)))
}

/// Where the two digits of position `j` start in the hexadecimal part of a
/// row: 25 characters per block, 3 per cell.
pub open spec fn hex_offset(j: int) -> int {
    25 * (j / 8) + 3 * (j % 8)
}

proof fn lemma_join_uniform(parts: Seq<Seq<char>>, sep: Seq<char>, w: nat)
    requires
        parts.len() > 0,
        forall|i: int| 0 <= i < parts.len() ==> #[trigger] parts[i].len() == w,
    ensures
        join(parts, sep).len() == parts.len() * (w + sep.len()) - sep.len(),
        forall|i: int|
            0 <= i < parts.len() ==> #[trigger] join(parts, sep).subrange(
                i * (w + sep.len()),
                i * (w + sep.len()) + w,
            ) == parts[i],
    decreases parts.len(),
{
    let n = parts.len() as int;
    let s = sep.len() as int;
    let j = join(parts, sep);
    if n > 1 {
        let init = parts.drop_last();
        lemma_join_uniform(init, sep, w);
        let ji = join(init, sep);
        assert(ji.len() == (n - 1) * (w + s) - s);
        assert((n - 1) * (w + s) - s + s + w == n * (w + s) - s) by (nonlinear_arith);
        assert forall|i: int| 0 <= i < n implies #[trigger] j.subrange(
            i * (w + s),
            i * (w + s) + w,
        ) == parts[i] by {
            if i < n - 1 {
                assert(i * (w + s) + w <= (n - 1) * (w + s) - s) by (nonlinear_arith)
                    requires
                        0 <= i < n - 1,
                        0 <= s,
                        0 <= w,
                ;
                assert(0 <= i * (w + s)) by (nonlinear_arith)
                    requires
                        0 <= i,
                        0 <= s,
                        0 <= w,
                ;
                assert(j.subrange(i * (w + s), i * (w + s) + w) =~= ji.subrange(
                    i * (w + s),
                    i * (w + s) + w,
                ));
            } else {
                assert(i * (w + s) == (n - 1) * (w + s));
                assert(j.subrange(i * (w + s), i * (w + s) + w) =~= parts.last());
            }
        }
    } else {
        assert(j.subrange(0, w as int) =~= parts[0]);
    }
}

proof fn lemma_block_cells(
    data: Seq<u8>,
    b: int,
    render: Render,
    sep: Seq<char>,
    filler: Seq<char>,
    w: nat,
)
    requires
        forall|i: int| 0 <= i < 8 ==> (#[trigger] cell(data, 8 * b + i, render, filler)).len() == w,
    ensures
        block_text(data, b, render, sep, filler).len() == 8 * (w + sep.len()) - sep.len(),
        forall|i: int|
            0 <= i < 8 ==> #[trigger] block_text(data, b, render, sep, filler).subrange(
                i * (w + sep.len()),
                i * (w + sep.len()) + w,
            ) == cell(data, 8 * b + i, render, filler),
{
    let parts = Seq::new(8, |i: int| cell(data, 8 * b + i, render, filler));
    lemma_join_uniform(parts, sep, w);
}

/// In a row of at most `columns` bytes, each position shows its byte while
/// the data reaches it, and the padding `..` (hexadecimal part) or `.` (text
/// part) past the end of the data; the hexadecimal form of a byte is never
/// the padding, so a full row holds none.
pub proof fn lemma_row_padding(data: Seq<u8>, columns: nat)
    requires
        valid_columns(columns),
        data.len() <= columns,
    ensures
        hex_channel(data, columns).len() == 25 * (columns / 8) - 2,
        text_channel(data, columns).len() == columns,
        forall|j: int|
            0 <= j < columns ==> #[trigger] hex_channel(data, columns).subrange(
                hex_offset(j),
                hex_offset(j) + 2,
            ) == (if j < data.len() {
                hex_text(data[j])
            } else {
                seq!['.', '.']
            }),
        forall|j: int|
            0 <= j < columns ==> #[trigger] text_channel(data, columns)[j] == (if j < data.len() {
                text_char(data[j])
            } else {
                '.'
            }),
        forall|j: int| 0 <= j < data.len() ==> #[trigger] hex_text(data[j]) != seq!['.', '.'],
{
    let nb = columns / 8;
    let hb = blocks(data, Render::Hex, columns, seq![' '], seq!['.', '.']);
    let tb = blocks(data, Render::Text, columns, seq![], seq!['.']);
    assert forall|x: u8| #[trigger] hex_text(x).len() == 2 && hex_text(x)[0] != '.' by {
        lemma_hex_text_digits(x);
    }
    let hf = seq!['.', '.'];
    let tf = seq!['.'];
    assert forall|b: int| 0 <= b < nb implies #[trigger] hb[b].len() == 23 && (forall|i: int|
        0 <= i < 8 ==> #[trigger] hb[b].subrange(3 * i, 3 * i + 2) == cell(
            data,
            8 * b + i,
            Render::Hex,
            hf,
        )) by {
        assert forall|i: int| 0 <= i < 8 implies (#[trigger] cell(
            data,
            8 * b + i,
            Render::Hex,
            hf,
        )).len() == 2 by {
            if 8 * b + i < data.len() {
                assert(hex_text(data[8 * b + i]).len() == 2);
            }
        }
        lemma_block_cells(data, b, Render::Hex, seq![' '], hf, 2);
        assert(hb[b] == block_text(data, b, Render::Hex, seq![' '], hf));
        assert forall|i: int| 0 <= i < 8 implies #[trigger] hb[b].subrange(3 * i, 3 * i + 2)
            == cell(data, 8 * b + i, Render::Hex, hf) by {
            assert(i * (2 + 1) == 3 * i);
            assert(block_text(data, b, Render::Hex, seq![' '], hf).subrange(
                i * (2 + seq![' '].len()),
                i * (2 + seq![' '].len()) + 2,
            ) == cell(data, 8 * b + i, Render::Hex, hf));
        }
    }
    assert forall|b: int| 0 <= b < nb implies #[trigger] tb[b].len() == 8 && (forall|i: int|
        0 <= i < 8 ==> #[trigger] tb[b].subrange(i, i + 1) == cell(
            data,
            8 * b + i,
            Render::Text,
            tf,
        )) by {
        lemma_block_cells(data, b, Render::Text, seq![], tf, 1);
        assert(tb[b] == block_text(data, b, Render::Text, seq![], tf));
        assert forall|i: int| 0 <= i < 8 implies #[trigger] tb[b].subrange(i, i + 1) == cell(
            data,
            8 * b + i,
            Render::Text,
            tf,
        ) by {
            assert(i * (1 + 0nat) == i);
            assert(block_text(data, b, Render::Text, seq![], tf).subrange(
                i * (1 + Seq::<char>::empty().len()),
                i * (1 + Seq::<char>::empty().len()) + 1,
            ) == cell(data, 8 * b + i, Render::Text, tf));
        }
    }
    lemma_join_uniform(hb, seq![' ', ' '], 23);
    lemma_join_uniform(tb, seq![], 8);
    let h = hex_channel(data, columns);
    let t = text_channel(data, columns);
    assert(nb * (23 + 2) == 25 * nb) by (nonlinear_arith);
    assert(nb * (8 + 0nat) == 8 * nb) by (nonlinear_arith);
    assert(h.len() == 25 * nb - 2);
    assert(t.len() == 8 * nb);
    assert forall|j: int| 0 <= j < columns implies #[trigger] h.subrange(
        hex_offset(j),
        hex_offset(j) + 2,
    ) == (if j < data.len() {
        hex_text(data[j])
    } else {
        seq!['.', '.']
    }) by {
        let b = j / 8;
        let i = j % 8;
        assert(j == 8 * b + i);
        assert(0 <= b < nb);
        assert(b * (23 + 2) == 25 * b) by (nonlinear_arith);
        assert(25 * b + 23 <= h.len());
        assert(h.subrange(b * (23 + seq![' ', ' '].len()), b * (23 + seq![' ', ' '].len()) + 23)
            == hb[b]);
        assert(h.subrange(25 * b, 25 * b + 23) == hb[b]);
        assert(hb[b].subrange(3 * i, 3 * i + 2) == cell(data, j, Render::Hex, hf));
        assert(h.subrange(hex_offset(j), hex_offset(j) + 2) =~= h.subrange(
            25 * b,
            25 * b + 23,
        ).subrange(3 * i, 3 * i + 2));
    }
    assert forall|j: int| 0 <= j < columns implies #[trigger] t[j] == (if j < data.len() {
        text_char(data[j])
    } else {
        '.'
    }) by {
        let b = j / 8;
        let i = j % 8;
        assert(j == 8 * b + i);
        assert(0 <= b < nb);
        assert(b * (8 + 0nat) == 8 * b) by (nonlinear_arith);
        assert(t.subrange(
            b * (8 + Seq::<char>::empty().len()),
            b * (8 + Seq::<char>::empty().len()) + 8,
        ) == tb[b]);
        assert(t.subrange(8 * b, 8 * b + 8) == tb[b]);
        assert(tb[b].subrange(i, i + 1) == cell(data, j, Render::Text, tf));
        assert(t[j] == t.subrange(8 * b, 8 * b + 8).subrange(i, i + 1)[0]);
    }
    assert forall|j: int| 0 <= j < data.len() implies #[trigger] hex_text(data[j]) != seq![
        '.',
        '.',
    ] by {
        lemma_hex_text_digits(data[j]);
    }
}

/// The strings of `parts` with `sep` between each two of them.
pub fn join_strings(parts: &Vec<String>, sep: &str) -> (r: String)
    ensures
        r@ == join(views(parts@), sep@),
{
    let ghost all = views(parts@);
    let mut out = String::new();
    let mut i: usize = 0;
    while i < parts.len()
        invariant
            i <= parts@.len(),
            all == views(parts@),
            out@ == join(all.take(i as int), sep@),
        decreases parts@.len() - i,
    {
        if i > 0 {
            out.append(sep);
        }
        out.append(parts[i].as_str());
        i = i + 1;
        assert(all.take(i as int).drop_last() =~= all.take(i - 1));
    }
    assert(all.take(parts@.len() as int) =~= all);
    out
}

fn render_byte(render: Render, byte: &u8) -> (r: String)
    ensures
        r@ == render_text(render, *byte),
{
    match render {
        Render::Hex => byte_to_hex(byte),
        Render::Text => byte_to_string(byte),
    }
}

/// Splits a row into its `columns / 8` blocks of eight cells; each block is
/// its cells joined by `sep`, with `filler` for the positions past the data.
pub fn gen_block(data: &[u8], render: Render, columns: usize, sep: &str, filler: &str) -> (r: Vec<
    String,
>)
    requires
        valid_columns(columns as nat),
    ensures
        views(r@) == blocks(data@, render, columns as nat, sep@, filler@),
{
    let ghost want = blocks(data@, render, columns as nat, sep@, filler@);
    let mut out: Vec<String> = Vec::new();
    let n = columns / 8;
    let mut block: usize = 0;
    while block < n
        invariant
            n == columns / 8,
            valid_columns(columns as nat),
            block <= n,
            want == blocks(data@, render, columns as nat, sep@, filler@),
            out@.len() == block,
            forall|k: int| 0 <= k < block ==> #[trigger] out@[k]@ == want[k],
        decreases n - block,
    {
        let start = if data.len() < block * 8 {
            data.len()
        } else {
            block * 8
        };
        let end = if data.len() < start + 8 {
            data.len()
        } else {
            start + 8
        };
        let ghost want_cells = Seq::new(
            8,
            |i: int| cell(data@, 8 * block + i, render, filler@),
        );
        let mut cells: Vec<String> = Vec::new();
        let mut i: usize = start;
        while i < end
            invariant
                start <= i <= end,
                end <= data@.len(),
                end <= start + 8,
                start == block * 8 || start == data@.len(),
                start <= block * 8,
                start < block * 8 ==> start == end,
                want_cells == Seq::new(8, |i: int| cell(data@, 8 * block + i, render, filler@)),
                cells@.len() == i - start,
                forall|c: int| 0 <= c < i - start ==> #[trigger] cells@[c]@ == want_cells[c],
            decreases end - i,
        {
            let s = render_byte(render, &data[i]);
            cells.push(s);
            i = i + 1;
        }
        while cells.len() < 8
            invariant
                end - start <= cells@.len() <= 8,
                end <= data@.len(),
                start == block * 8 || start == data@.len(),
                start <= block * 8,
                start < block * 8 ==> start == end,
                end == data@.len() || end == start + 8,
                want_cells == Seq::new(8, |i: int| cell(data@, 8 * block + i, render, filler@)),
                forall|c: int| 0 <= c < cells@.len() ==> #[trigger] cells@[c]@ == want_cells[c],
            decreases 8 - cells@.len(),
        {
            assert(8 * block + cells@.len() >= data@.len());
            assert(want_cells[cells@.len() as int] == filler@);
            cells.push(String::from_str(filler));
        }
        assert(views(cells@) =~= want_cells);
        let joined = join_strings(&cells, sep);
        out.push(joined);
        block = block + 1;
    }
    assert(views(out@) =~= want);
    out
}

/// Joins the address, hex and text fields of a line: two spaces between
/// fields and a newline at the end.
pub fn create_row(address: &str, data: &str, text: &str) -> (r: String)
    ensures
        r@ == row_text(address@, data@, text@),
{
    proof {
        reveal_strlit("  ");
        reveal_strlit("\n");
    }
    let mut s = String::from_str(address);
    s.append("  ");
    s.append(data);
    s.append("  ");
    s.append(text);
    s.append("\n");
    assert(s@ =~= row_text(address@, data@, text@));
    s
}

/// Renders one row: the address, then the bytes in hexadecimal and as text,
/// with the positions past the end of `data` padded.
pub fn data_row(address: u32, data: &[u8], columns: usize) -> (r: String)
    requires
        valid_columns(columns as nat),
    ensures
        r@ == data_row_text(address, data@, columns as nat),
{
    proof {
        reveal_strlit(" ");
        reveal_strlit("  ");
        reveal_strlit("..");
        reveal_strlit(".");
        reveal_strlit("");
    }
    assert(" "@ =~= seq![' ']);
    assert("  "@ =~= seq![' ', ' ']);
    assert(".."@ =~= seq!['.', '.']);
    assert("."@ =~= seq!['.']);
    assert(""@ =~= Seq::<char>::empty());
    let address = address_to_hex(address);
    let blocks = gen_block(data, Render::Hex, columns, " ", "..");
    let blocks = join_strings(&blocks, "  ");
    let texts = gen_block(data, Render::Text, columns, "", ".");
    let texts = join_strings(&texts, "");
    assert(blocks@ =~= hex_channel(data@, columns as nat));
    assert(texts@ =~= text_channel(data@, columns as nat));
    create_row(address.as_str(), blocks.as_str(), texts.as_str())
}

fn blank(n: usize) -> (r: String)
    ensures
        r@ == spaces(n as nat),
{
    let mut s = String::new();
    let mut i: usize = 0;
    while i < n
        invariant
            i <= n,
            s@ =~= spaces(i as nat),
        decreases n - i,
    {
        push_char(&mut s, ' ');
        i = i + 1;
    }
    s
}

/// Renders the header: the positions `00` to `columns - 1` laid out as the
/// bytes of a row, under a blank address and a blank text field.
pub fn locations_header(columns: usize) -> (r: String)
    requires
        valid_columns(columns as nat),
    ensures
        r@ == header_text(columns as nat),
{
    proof {
        reveal_strlit(" ");
        reveal_strlit("  ");
        reveal_strlit("..");
    }
    assert(" "@ =~= seq![' ']);
    assert("  "@ =~= seq![' ', ' ']);
    assert(".."@ =~= seq!['.', '.']);
    let mut data: Vec<u8> = Vec::new();
    let mut i: usize = 0;
    while i < columns
        invariant
            i <= columns,
            valid_columns(columns as nat),
            data@ =~= indices(columns as nat).take(i as int),
        decreases columns - i,
    {
        data.push(i as u8);
        i = i + 1;
    }
    assert(data@ =~= indices(columns as nat));
    let blocks = gen_block(data.as_slice(), Render::Hex, columns, " ", "..");
    let blocks = join_strings(&blocks, "  ");
    assert(blocks@ =~= hex_channel(indices(columns as nat), columns as nat));
    let address = blank(10);
    let text = blank(columns);
    let row = create_row(address.as_str(), blocks.as_str(), text.as_str());
    lowercase_ascii(row.as_str())
}

} // verus!
