//! The dump itself: a header, then one row per chunk of input, with a blank
//! line before each row whose address starts a section of sixteen full rows.

use crate::layout::{
    data_row, data_row_text, header_text, hex_channel, hex_offset, lemma_row_padding,
    locations_header, text_channel, valid_columns,
};
use crate::hex::hex_text;
use crate::text::text_char;
use vstd::arithmetic::div_mod::{
    lemma_div_multiples_vanish, lemma_fundamental_div_mod, lemma_mod_multiples_basic,
};
use vstd::prelude::*;
use vstd::slice::slice_subrange;
use vstd::string::*;

verus! {

/// A blank line when `address` is a multiple of sixteen rows, nothing otherwise.
pub open spec fn separator(address: nat, columns: nat) -> Seq<char> {
    if address % (16 * columns) == 0 {
        seq!['\n']
    } else {
        seq![]
    }
}

/// What a chunk read at `address` adds to the dump.
pub open spec fn chunk_output(address: u32, chunk: Seq<u8>, columns: nat) -> Seq<char> {
    separator(address as nat, columns) + data_row_text(address, chunk, columns)
}

/// The chunks in which the input is read: `columns` bytes each, the last one
/// possibly shorter.
pub open spec fn chunks(data: Seq<u8>, columns: nat) -> Seq<Seq<u8>>
    decreases data.len(),
{
    if data.len() == 0 || columns == 0 {
        seq![]
    } else if data.len() <= columns {
        seq![data]
    } else {
        seq![data.take(columns as int)] + chunks(data.skip(columns as int), columns)
    }
}

/// The rows of the chunks `cs`, the first of them read at `address`.
pub open spec fn rows_text(cs: Seq<Seq<u8>>, address: nat, columns: nat) -> Seq<char>
    decreases cs.len(),
{
    if cs.len() == 0 {
        seq![]
    } else {
        chunk_output(address as u32, cs[0], columns) + rows_text(
            cs.drop_first(),
            address + cs[0].len(),
            columns,
        )
    }
}

/// The whole dump of `data`.
pub open spec fn dump_text(data: Seq<u8>, columns: nat) -> Seq<char> {
    header_text(columns) + rows_text(chunks(data, columns), 0, columns)
}

/// The state of a dump in progress: the address of the next byte to be read,
/// and the row width.
pub struct DumpSession {
    pub address: u32,
    pub columns: usize,
}

impl DumpSession {
    pub open spec fn wf(&self) -> bool {
        valid_columns(self.columns as nat)
    }

    /// A dump that has read nothing yet.
    pub fn new(columns: usize) -> (r: DumpSession)
        requires
            valid_columns(columns as nat),
        ensures
            r.wf(),
            r.address == 0,
            r.columns == columns,
    {
        DumpSession { address: 0, columns }
    }

    /// The header line, written once before any row.
    pub fn header(&self) -> (r: String)
        requires
            self.wf(),
        ensures
            r@ == header_text(self.columns as nat),
    {
        locations_header(self.columns)
    }

    /// Takes the bytes of one read. An empty read ends the dump: `None`, and
    /// the session is unchanged. Otherwise the text to write, made of the
    /// section break if due and the row, and the address moves past the bytes.
    pub fn next(&mut self, chunk: &[u8]) -> (r: Option<String>)
        requires
            old(self).wf(),
            chunk@.len() <= old(self).columns,
            old(self).address + chunk@.len() <= u32::MAX,
        ensures
            final(self).wf(),
            final(self).columns == old(self).columns,
            chunk@.len() == 0 ==> r is None && final(self).address == old(self).address,
            chunk@.len() > 0 ==> r is Some && final(self).address == old(self).address
                + chunk@.len(),
            r matches Some(s) ==> s@ == chunk_output(
                old(self).address,
                chunk@,
                old(self).columns as nat,
            ),
    {
        if chunk.len() == 0 {
            return None;
        }
        let mut out = String::new();
        let period = 16 * (self.columns as u32);
        if self.address % period == 0 {
            proof {
                reveal_strlit("\n");
            }
            out.append("\n");
        }
        let row = data_row(self.address, chunk, self.columns);
        out.append(row.as_str());
        assert(out@ =~= chunk_output(self.address, chunk@, self.columns as nat));
        self.address = self.address + chunk.len() as u32;
        Some(out)
    }
}

proof fn lemma_chunks_step(data: Seq<u8>, columns: nat)
    requires
        columns > 0,
        data.len() > 0,
    ensures
        chunks(data, columns).len() > 0,
        chunks(data, columns)[0] == data.take(
            if data.len() <= columns {
                data.len() as int
            } else {
                columns as int
            },
        ),
        chunks(data, columns).drop_first() == if data.len() <= columns {
            Seq::<Seq<u8>>::empty()
        } else {
            chunks(data.skip(columns as int), columns)
        },
{
    if data.len() <= columns {
        assert(data.take(data.len() as int) =~= data);
        assert(chunks(data, columns).drop_first() =~= Seq::<Seq<u8>>::empty());
    } else {
        assert(chunks(data, columns).drop_first() =~= chunks(data.skip(columns as int), columns));
    }
}

proof fn lemma_chunks_whole(data: Seq<u8>, columns: nat)
    requires
        columns > 0,
        data.len() % columns == 0,
    ensures
        chunks(data, columns).len() == data.len() / columns,
        forall|i: int|
            0 <= i < chunks(data, columns).len() ==> #[trigger] chunks(data, columns)[i]
                == data.subrange(i * columns, (i + 1) * columns),
    decreases data.len(),
{
    let c = columns as int;
    let n = data.len() as int;
    let q = n / c;
    lemma_fundamental_div_mod(n, c);
    if n > 0 {
        assert(q >= 1) by (nonlinear_arith)
            requires
                n == c * q,
                n > 0,
                c > 0,
        ;
        let cs = chunks(data, columns);
        if q == 1 {
            assert(n == c) by (nonlinear_arith)
                requires
                    n == c * q,
                    q == 1,
            ;
            assert(data.subrange(0, c) =~= data);
            assert(cs == seq![data]);
            assert forall|i: int| 0 <= i < cs.len() implies #[trigger] cs[i] == data.subrange(
                i * c,
                (i + 1) * c,
            ) by {
                assert(i * c == 0 && (i + 1) * c == c) by (nonlinear_arith)
                    requires
                        i == 0,
                ;
            }
        } else {
            assert(n > c) by (nonlinear_arith)
                requires
                    n == c * q,
                    q > 1,
                    c > 0,
            ;
            let rest = data.skip(c);
            assert(n - c == c * (q - 1)) by (nonlinear_arith)
                requires
                    n == c * q,
            ;
            lemma_div_multiples_vanish(q - 1, c);
            lemma_mod_multiples_basic(q - 1, c);
            assert((q - 1) * c == c * (q - 1)) by (nonlinear_arith);
            lemma_chunks_whole(rest, columns);
            let rs = chunks(rest, columns);
            assert(cs == seq![data.take(c)] + rs);
            assert forall|i: int| 0 <= i < cs.len() implies #[trigger] cs[i] == data.subrange(
                i * c,
                (i + 1) * c,
            ) by {
                if i == 0 {
                    assert(i * c == 0 && (i + 1) * c == c) by (nonlinear_arith)
                        requires
                            i == 0,
                    ;
                    assert(data.take(c) =~= data.subrange(0, c));
                } else {
                    assert(cs[i] == rs[i - 1]);
                    assert((i - 1) * c + c == i * c && i * c + c == (i + 1) * c && 0 <= (i - 1)
                        * c && (i + 1) * c <= n) by (nonlinear_arith)
                        requires
                            1 <= i < q,
                            n == c * q,
                            c > 0,
                    ;
                    assert(rest.subrange((i - 1) * c, i * c) =~= data.subrange(i * c, (i + 1) * c));
                }
            }
        }
    }
}

/// An input of a whole number of rows is read in full chunks only, each the
/// next `columns` bytes, so no row of its dump holds padding: each position
/// shows its own byte in both the hexadecimal and the text part.
pub proof fn lemma_whole_rows(data: Seq<u8>, columns: nat)
    requires
        valid_columns(columns),
        data.len() % columns == 0,
    ensures
        chunks(data, columns).len() == data.len() / columns,
        forall|i: int|
            0 <= i < chunks(data, columns).len() ==> #[trigger] chunks(data, columns)[i]
                == data.subrange(i * columns, (i + 1) * columns),
        forall|i: int, j: int|
            0 <= i < chunks(data, columns).len() && 0 <= j < columns ==> #[trigger] hex_channel(
                chunks(data, columns)[i],
                columns,
            ).subrange(hex_offset(j), hex_offset(j) + 2) == hex_text(chunks(data, columns)[i][j])
                && text_channel(chunks(data, columns)[i], columns)[j] == text_char(
                chunks(data, columns)[i][j],
            ),
{
    lemma_chunks_whole(data, columns);
    let cs = chunks(data, columns);
    assert forall|i: int, j: int| 0 <= i < cs.len() && 0 <= j < columns implies #[trigger] hex_channel(
        cs[i],
        columns,
    ).subrange(hex_offset(j), hex_offset(j) + 2) == hex_text(cs[i][j]) && text_channel(
        cs[i],
        columns,
    )[j] == text_char(cs[i][j]) by {
        let n = data.len() as int;
        let c = columns as int;
        let q = n / c;
        lemma_fundamental_div_mod(n, c);
        assert(0 <= i * c && (i + 1) * c <= n) by (nonlinear_arith)
            requires
                0 <= i < q,
                n == c * q,
                c > 0,
        ;
        assert(cs[i].len() == columns);
        lemma_row_padding(cs[i], columns);
    }
}

/// Dumps the whole of `data`, read `columns` bytes at a time: the header,
/// then one row per chunk.
pub fn dump_bytes(data: &[u8], columns: usize) -> (r: String)
    requires
        valid_columns(columns as nat),
        data@.len() <= u32::MAX,
    ensures
        r@ == dump_text(data@, columns as nat),
        data@.len() == 0 ==> r@ == header_text(columns as nat),
{
    let mut session = DumpSession::new(columns);
    let mut out = session.header();
    let ghost all = dump_text(data@, columns as nat);
    let mut offset: usize = 0;
    assert(data@.skip(0) =~= data@);
    while offset < data.len()
        invariant
            session.wf(),
            session.columns == columns,
            session.address == offset,
            offset <= data@.len() <= u32::MAX,
            all == dump_text(data@, columns as nat),
            out@ + rows_text(chunks(data@.skip(offset as int), columns as nat), offset as nat, columns as nat) == all,
        decreases data@.len() - offset,
    {
        let end = if data.len() - offset < columns {
            data.len()
        } else {
            offset + columns
        };
        let chunk = slice_subrange(data, offset, end);
        let ghost rest = data@.skip(offset as int);
        proof {
            lemma_chunks_step(rest, columns as nat);
            assert(chunk@ =~= chunks(rest, columns as nat)[0]);
            if end < data.len() {
                assert(rest.skip(columns as int) =~= data@.skip(end as int));
            } else {
                assert(data@.skip(end as int) =~= Seq::<u8>::empty());
            }
        }
        let ghost before = out@;
        match session.next(chunk) {
            Some(row) => {
                out.append(row.as_str());
            },
            None => {},
        }
        assert(out@ + rows_text(chunks(data@.skip(end as int), columns as nat), end as nat, columns as nat)
            =~= before + rows_text(chunks(rest, columns as nat), offset as nat, columns as nat));
        offset = end;
    }
    assert(data@.skip(offset as int) =~= Seq::<u8>::empty());
    assert(out@ =~= all);
    out
}

} // verus!
