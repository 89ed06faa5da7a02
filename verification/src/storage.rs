//! Index storage: the records that the index relation's pages hold, one or
//! more per heap row, and the decisions that reading, extending and pruning
//! those pages take.
//!
//! Two kinds of records, both keyed by the row's place in the heap:
//! - a marker, `[0][block u32][offset u16]`: the row still needs extraction;
//! - mentions, `[1][block u32][offset u16][n u16]` and then n times
//!   `[len u16][utf8]`: the surfaces extracted from the row.
//!
//! Numbers are little-endian.
use crate::text::{decimal, decimal_text, texts};
use vstd::prelude::*;
use vstd::slice::slice_subrange;
use vstd::string::*;
use vstd::utf8::{
    decode_utf8, encode_utf8, encode_utf8_decode_utf8, encode_utf8_valid_utf8, valid_utf8,
};

verus! {

/// Tag of a record that says "this row needs extraction".
pub const MARKER: u8 = 0;

/// Tag of a record that holds a row's extracted surfaces.
pub const MENTIONS: u8 = 1;

/// The block number that asks for a fresh page at the end of the relation.
pub const NEW_BLOCK: u32 = 0xFFFF_FFFF;

/// What `String::from_utf8_lossy` makes of bytes that are not valid UTF-8.
pub uninterp spec fn utf8_lossy(bytes: Seq<u8>) -> Seq<char>;

/// The text of a stored surface: the decoded bytes where they are valid UTF-8,
/// and the lossy reading of them otherwise.
pub open spec fn surface_text(bytes: Seq<u8>) -> Seq<char> {
    if valid_utf8(bytes) {
        decode_utf8(bytes)
    } else {
        utf8_lossy(bytes)
    }
}

/// `String::from_utf8_lossy`: valid UTF-8 comes back as the text it encodes;
/// what becomes of other bytes depends on the bytes alone and is called
/// `utf8_lossy`. Where the replacement characters go is left unsaid.
#[verifier::external_body]
fn from_utf8_lossy(bytes: &[u8]) -> (s: String)
    ensures
        s@ == (if valid_utf8(bytes@) {
            decode_utf8(bytes@)
        } else {
            utf8_lossy(bytes@)
        }),
{
    String::from_utf8_lossy(bytes).into_owned()
}

/// The two bytes of a 16-bit number, low byte first.
pub open spec fn le16(x: int) -> Seq<u8> {
    seq![(x % 256) as u8, (x / 256) as u8]
}

/// The four bytes of a 32-bit number, low byte first.
pub open spec fn le32(x: int) -> Seq<u8> {
    seq![(x % 256) as u8, (x / 256 % 256) as u8, (x / 65536 % 256) as u8, (x / 16777216) as u8]
}

/// The 16-bit number whose bytes start at `at`.
pub open spec fn get16(data: Seq<u8>, at: int) -> int {
    data[at] + 256 * data[at + 1]
}

/// The 32-bit number whose bytes start at `at`.
pub open spec fn get32(data: Seq<u8>, at: int) -> int {
    data[at] + 256 * data[at + 1] + 65536 * data[at + 2] + 16777216 * data[at + 3]
}

/// The first seven bytes of every record.
pub open spec fn header(tag: u8, block: u32, offset: u16) -> Seq<u8> {
    seq![tag] + le32(block as int) + le16(offset as int)
}

/// The stored form of a list of surfaces: the length of each, modulo 65536,
/// and its UTF-8 bytes.
pub open spec fn surface_bytes(surfaces: Seq<Seq<char>>) -> Seq<u8>
    decreases surfaces.len(),
{
    if surfaces.len() == 0 {
        seq![]
    } else {
        let b = encode_utf8(surfaces.last());
        surface_bytes(surfaces.drop_last()) + le16(b.len() as int % 65536) + b
    }
}

/// The bytes of a mentions record. The count of surfaces is kept modulo 65536.
pub open spec fn mention_bytes(block: u32, offset: u16, surfaces: Seq<Seq<char>>) -> Seq<u8> {
    header(MENTIONS, block, offset) + le16(surfaces.len() as int % 65536) + surface_bytes(surfaces)
}

/// Up to `n` surfaces, read from `pos` on; reading stops where the bytes end.
pub open spec fn read_surfaces(data: Seq<u8>, pos: int, n: nat) -> Seq<Seq<char>>
    decreases n,
{
    if n == 0 || pos + 2 > data.len() {
        seq![]
    } else {
        let end = pos + 2 + get16(data, pos);
        if end > data.len() {
            seq![]
        } else {
            seq![surface_text(data.subrange(pos + 2, end))] + read_surfaces(
                data,
                end,
                (n - 1) as nat,
            )
        }
    }
}

/// What a record says: its tag, the row's block and offset, and the surfaces.
/// Fewer than seven bytes read as an empty marker.
pub open spec fn decoded(data: Seq<u8>) -> (u8, u32, u16, Seq<Seq<char>>) {
    if data.len() < 7 {
        (MARKER, 0u32, 0u16, Seq::<Seq<char>>::empty())
    } else {
        (
            data[0],
            get32(data, 1) as u32,
            get16(data, 5) as u16,
            if data[0] == MENTIONS && data.len() >= 9 {
                read_surfaces(data, 9, get16(data, 7) as nat)
            } else {
                Seq::<Seq<char>>::empty()
            },
        )
    }
}

/// The heap row that a record belongs to.
pub open spec fn row_of(data: Seq<u8>) -> (u32, u16) {
    (decoded(data).1, decoded(data).2)
}

fn push16(v: &mut Vec<u8>, x: u16)
    ensures
        final(v)@ == old(v)@ + le16(x as int),
{
    v.push((x % 256) as u8);
    v.push((x / 256) as u8);
    assert(v@ =~= old(v)@ + le16(x as int));
}

fn push32(v: &mut Vec<u8>, x: u32)
    ensures
        final(v)@ == old(v)@ + le32(x as int),
{
    v.push((x % 256) as u8);
    v.push((x / 256 % 256) as u8);
    v.push((x / 65536 % 256) as u8);
    v.push((x / 16777216) as u8);
    assert(v@ =~= old(v)@ + le32(x as int));
}

fn read16(data: &[u8], at: usize) -> (x: u16)
    requires
        at + 2 <= data@.len(),
    ensures
        x == get16(data@, at as int),
{
    data[at] as u16 + 256 * (data[at + 1] as u16)
}

fn read32(data: &[u8], at: usize) -> (x: u32)
    requires
        at + 4 <= data@.len(),
    ensures
        x == get32(data@, at as int),
{
    data[at] as u32 + 256 * (data[at + 1] as u32) + 65536 * (data[at + 2] as u32) + 16777216 * (
    data[at + 3] as u32)
}

/// The record that marks a row for extraction.
pub fn marker(block: u32, offset: u16) -> (v: Vec<u8>)
    ensures
        v@ == header(MARKER, block, offset),
{
    let mut v: Vec<u8> = Vec::new();
    v.push(MARKER);
    assert(v@ =~= seq![MARKER]);
    push32(&mut v, block);
    push16(&mut v, offset);
    v
}

/// The record that holds a row's surfaces.
pub fn mentions(block: u32, offset: u16, surfaces: &[String]) -> (v: Vec<u8>)
    ensures
        v@ == mention_bytes(block, offset, texts(surfaces@)),
{
    let mut v: Vec<u8> = Vec::new();
    v.push(MENTIONS);
    assert(v@ =~= seq![MENTIONS]);
    push32(&mut v, block);
    push16(&mut v, offset);
    push16(&mut v, (surfaces.len() % 65536) as u16);
    let ghost head = v@;
    let mut i: usize = 0;
    assert(v@ =~= head + surface_bytes(texts(surfaces@).take(0)));
    while i < surfaces.len()
        invariant
            i <= surfaces.len(),
            v@ == head + surface_bytes(texts(surfaces@).take(i as int)),
        decreases surfaces.len() - i,
    {
        let b = surfaces[i].as_str().as_bytes();
        proof {
            assert(texts(surfaces@).take(i + 1).drop_last() =~= texts(surfaces@).take(i as int));
            assert(texts(surfaces@).take(i + 1).last() == surfaces@[i as int]@);
        }
        push16(&mut v, (b.len() % 65536) as u16);
        v.extend_from_slice(b);
        assert(v@ =~= head + surface_bytes(texts(surfaces@).take(i + 1)));
        i = i + 1;
    }
    assert(texts(surfaces@).take(i as int) =~= texts(surfaces@));
    v
}

/// Reads a record back. A record shorter than seven bytes means corruption and
/// reads as an empty marker; a truncated list of surfaces ends early.
pub fn decode(data: &[u8]) -> (r: (u8, u32, u16, Vec<String>))
    ensures
        (r.0, r.1, r.2, texts(r.3@)) == decoded(data@),
{
    let mut surfaces: Vec<String> = Vec::new();
    assert(texts(surfaces@) =~= Seq::<Seq<char>>::empty());
    if data.len() < 7 {
        return (MARKER, 0, 0, surfaces);
    }
    let tag: u8 = data[0];
    let block: u32 = read32(data, 1);
    let offset: u16 = read16(data, 5);
    if tag == MENTIONS && data.len() >= 9 {
        let n: u16 = read16(data, 7);
        let mut left: u16 = n;
        let mut pos: usize = 9;
        let ghost all = read_surfaces(data@, 9, n as nat);
        assert(texts(surfaces@) + all =~= all);
        while left > 0
            invariant
                9 <= pos <= data@.len(),
                texts(surfaces@) + read_surfaces(data@, pos as int, left as nat) == all,
            ensures
                texts(surfaces@) == all,
            decreases left,
        {
            if data.len() - pos < 2 {
                assert(texts(surfaces@) + Seq::<Seq<char>>::empty() =~= texts(surfaces@));
                break;
            }
            let len: usize = read16(data, pos) as usize;
            if data.len() - pos - 2 < len {
                assert(texts(surfaces@) + Seq::<Seq<char>>::empty() =~= texts(surfaces@));
                break;
            }
            let end: usize = pos + 2 + len;
            let s = from_utf8_lossy(slice_subrange(data, pos + 2, end));
            let ghost before = texts(surfaces@);
            let ghost rest = read_surfaces(data@, end as int, (left - 1) as nat);
            surfaces.push(s);
            proof {
                assert(texts(surfaces@) =~= before.push(s@));
                assert(before + (seq![s@] + rest) =~= before.push(s@) + rest);
            }
            pos = end;
            left = left - 1;
            assert(texts(surfaces@) + Seq::<Seq<char>>::empty() =~= texts(surfaces@));
        }
    }
    (tag, block, offset, surfaces)
}

/// The text of a row's place in the heap, as Postgres writes a `ctid`.
pub open spec fn ctid_text(row: (u32, u16)) -> Seq<char> {
    seq!['('] + decimal(row.0 as nat) + seq![','] + decimal(row.1 as nat) + seq![')']
}

/// Writes a row's place in the heap as `(block,offset)`.
pub fn ctid(block: u32, offset: u16) -> (s: String)
    ensures
        s@ == ctid_text((block, offset)),
{
    let mut s = String::new();
    s.push('(');
    assert(s@ =~= seq!['(']);
    let b = decimal_text(block as u64);
    s.append(b.as_str());
    s.push(',');
    let o = decimal_text(offset as u64);
    s.append(o.as_str());
    s.push(')');
    assert(s@ =~= ctid_text((block, offset)));
    s
}

/// The contents of a list of records.
pub open spec fn contents(records: Seq<Vec<u8>>) -> Seq<Seq<u8>> {
    records.map_values(|r: Vec<u8>| r@)
}

/// One page of the index relation: its line pointers in order. A line pointer
/// in use holds its record; a dead or unused one holds nothing. The line
/// pointer at position `i` has offset number `i + 1`.
pub struct Page {
    pub slots: Vec<Option<Vec<u8>>>,
}

impl View for Page {
    type V = Seq<Option<Seq<u8>>>;

    open spec fn view(&self) -> Seq<Option<Seq<u8>>> {
        self.slots@.map_values(
            |s: Option<Vec<u8>>|
                match s {
                    Some(r) => Some(r@),
                    None => None,
                },
        )
    }
}

/// The live records of a page, in order.
pub open spec fn page_records(page: Seq<Option<Seq<u8>>>) -> Seq<Seq<u8>>
    decreases page.len(),
{
    if page.len() == 0 {
        seq![]
    } else {
        match page.last() {
            Some(r) => page_records(page.drop_last()).push(r),
            None => page_records(page.drop_last()),
        }
    }
}

/// The contents of a list of pages.
pub open spec fn page_views(pages: Seq<Page>) -> Seq<Seq<Option<Seq<u8>>>> {
    pages.map_values(|p: Page| p@)
}

/// The live records of all pages, in order.
pub open spec fn all_records(pages: Seq<Seq<Option<Seq<u8>>>>) -> Seq<Seq<u8>>
    decreases pages.len(),
{
    if pages.len() == 0 {
        seq![]
    } else {
        all_records(pages.drop_last()) + page_records(pages.last())
    }
}

/// Reads every live record.
pub fn scan(pages: &Vec<Page>) -> (out: Vec<Vec<u8>>)
    ensures
        contents(out@) == all_records(page_views(pages@)),
{
    let ghost all = page_views(pages@);
    let mut out: Vec<Vec<u8>> = Vec::new();
    assert(contents(out@) =~= Seq::<Seq<u8>>::empty());
    let mut p: usize = 0;
    while p < pages.len()
        invariant
            p <= pages.len(),
            all == page_views(pages@),
            contents(out@) == all_records(all.take(p as int)),
        decreases pages.len() - p,
    {
        let page = &pages[p];
        let ghost before = contents(out@);
        let mut i: usize = 0;
        assert(before + page_records(page@.take(0)) =~= before);
        while i < page.slots.len()
            invariant
                i <= page.slots.len(),
                contents(out@) == before + page_records(page@.take(i as int)),
            decreases page.slots.len() - i,
        {
            let ghost sofar = out@;
            assert(page@.take(i + 1).drop_last() =~= page@.take(i as int));
            assert(page@.take(i + 1).last() == page@[i as int]);
            match &page.slots[i] {
                Some(r) => {
                    let copy = copy_bytes(r);
                    out.push(copy);
                    proof {
                        assert(contents(out@) =~= contents(sofar).push(r@));
                        assert(contents(out@) =~= before + page_records(page@.take(i + 1)));
                    }
                },
                None => {},
            }
            i = i + 1;
        }
        proof {
            assert(page@.take(i as int) =~= page@);
            assert(all.take(p + 1).drop_last() =~= all.take(p as int));
            assert(all.take(p + 1).last() == page@);
        }
        p = p + 1;
    }
    assert(all.take(p as int) =~= all);
    out
}

fn copy_bytes(r: &Vec<u8>) -> (c: Vec<u8>)
    ensures
        c@ == r@,
{
    let mut c: Vec<u8> = Vec::new();
    c.extend_from_slice(r.as_slice());
    assert(c@ =~= r@);
    c
}

/// A page with every record of a dead row taken out.
pub open spec fn pruned(page: Seq<Option<Seq<u8>>>, dead: Set<(u32, u16)>) -> Seq<
    Option<Seq<u8>>,
> {
    page.map_values(
        |s: Option<Seq<u8>>|
            match s {
                Some(r) => if dead.contains(row_of(r)) {
                    None
                } else {
                    Some(r)
                },
                None => None,
            },
    )
}

/// The row of each live record of a page, in order: what is asked before the
/// page is pruned, once for each record.
pub fn rows_to_ask(page: &Page) -> (rows: Vec<(u32, u16)>)
    ensures
        rows@ == page_records(page@).map_values(|r: Seq<u8>| row_of(r)),
{
    let mut rows: Vec<(u32, u16)> = Vec::new();
    let mut i: usize = 0;
    while i < page.slots.len()
        invariant
            i <= page.slots.len(),
            rows@ =~= page_records(page@.take(i as int)).map_values(|r: Seq<u8>| row_of(r)),
        decreases page.slots.len() - i,
    {
        assert(page@.take(i + 1).drop_last() =~= page@.take(i as int));
        assert(page@.take(i + 1).last() == page@[i as int]);
        match &page.slots[i] {
            Some(r) => {
                let d = decode(r.as_slice());
                assert((d.1, d.2) == row_of(r@));
                rows.push((d.1, d.2));
            },
            None => {},
        }
        i = i + 1;
    }
    assert(page@.take(i as int) =~= page@);
    rows
}

/// A page with every live record taken out that was answered to be dead. The
/// answers stand in the order of the live records.
pub open spec fn pruned_by(page: Seq<Option<Seq<u8>>>, answers: Seq<bool>) -> Seq<
    Option<Seq<u8>>,
>
    decreases page.len(),
{
    if page.len() == 0 {
        seq![]
    } else {
        let before = pruned_by(page.drop_last(), answers);
        match page.last() {
            Some(r) => if answers[page_records(page.drop_last()).len() as int] {
                before.push(None)
            } else {
                before.push(Some(r))
            },
            None => before.push(None),
        }
    }
}

/// The offset numbers of the live records that were answered to be dead, in
/// ascending order.
pub open spec fn dead_offsets(page: Seq<Option<Seq<u8>>>, answers: Seq<bool>) -> Seq<u16>
    decreases page.len(),
{
    if page.len() == 0 {
        seq![]
    } else {
        let before = dead_offsets(page.drop_last(), answers);
        if page.last() is Some && answers[page_records(page.drop_last()).len() as int] {
            before.push(page.len() as u16)
        } else {
            before
        }
    }
}

proof fn lemma_page_records_grow(page: Seq<Option<Seq<u8>>>, i: int)
    requires
        0 <= i <= page.len(),
    ensures
        page_records(page.take(i)).len() <= page_records(page).len(),
    decreases page.len(),
{
    if i < page.len() {
        lemma_page_records_grow(page.drop_last(), i);
        assert(page.drop_last().take(i) =~= page.take(i));
    } else {
        assert(page.take(i) =~= page);
    }
}

/// Takes the records that were answered to be dead off a page and returns the
/// offset numbers of the line pointers to mark dead. There is one answer for
/// each live record, in order. What is taken off is never scanned again, even
/// if a later row reuses the place in the heap.
pub fn prune(page: &mut Page, answers: &Vec<bool>) -> (offsets: Vec<u16>)
    requires
        old(page)@.len() <= 65535,
        answers@.len() == page_records(old(page)@).len(),
    ensures
        final(page)@ == pruned_by(old(page)@, answers@),
        offsets@ == dead_offsets(old(page)@, answers@),
{
    let ghost page0 = page@;
    let mut offsets: Vec<u16> = Vec::new();
    let mut asked: usize = 0;
    let mut i: usize = 0;
    while i < page.slots.len()
        invariant
            i <= page.slots.len(),
            page@.len() == page0.len(),
            page0.len() <= 65535,
            answers@.len() == page_records(page0).len(),
            asked == page_records(page0.take(i as int)).len(),
            offsets@ == dead_offsets(page0.take(i as int), answers@),
            page@.take(i as int) == pruned_by(page0.take(i as int), answers@),
            forall|j: int| i <= j < page0.len() ==> page@[j] == page0[j],
        decreases page.slots.len() - i,
    {
        let ghost before = page@;
        proof {
            assert(page0.take(i + 1).drop_last() =~= page0.take(i as int));
            assert(page0.take(i + 1).last() == page@[i as int]);
            lemma_page_records_grow(page0, i + 1);
        }
        if page.slots[i].is_some() {
            assert(asked < answers.len());
            if answers[asked] {
                page.slots.set(i, None);
                offsets.push((i + 1) as u16);
            }
            asked = asked + 1;
        }
        proof {
            assert(page@.take(i + 1) =~= before.take(i as int).push(page@[i as int]));
        }
        i = i + 1;
    }
    assert(page0.take(i as int) =~= page0);
    assert(page@.take(i as int) =~= page@);
    offsets
}

/// What to do after an attempt to place a record on a page.
#[derive(Clone, Copy, PartialEq, Eq, Structural, Debug)]
pub enum AppendStep {
    /// The record is in place.
    Done,
    /// Try again on this block.
    Try(u32),
    /// Not even a fresh page holds the record.
    TooLarge,
}

/// The block to try first: the last one, or a fresh one where there is none.
pub fn append_target(nblocks: u32) -> (block: u32)
    ensures
        block == (if nblocks == 0 {
            NEW_BLOCK
        } else {
            (nblocks - 1) as u32
        }),
{
    if nblocks == 0 {
        NEW_BLOCK
    } else {
        nblocks - 1
    }
}

/// What follows an attempt on `block`.
pub open spec fn append_step(block: u32, placed: bool) -> AppendStep {
    if placed {
        AppendStep::Done
    } else if block == NEW_BLOCK {
        AppendStep::TooLarge
    } else {
        AppendStep::Try(NEW_BLOCK)
    }
}

/// Decides what follows an attempt to place a record on `block`: a full page
/// sends it to a fresh one, and a record that a fresh page does not hold is
/// too large.
pub fn append(block: u32, placed: bool) -> (step: AppendStep)
    ensures
        step == append_step(block, placed),
{
    if placed {
        AppendStep::Done
    } else if block == NEW_BLOCK {
        AppendStep::TooLarge
    } else {
        AppendStep::Try(NEW_BLOCK)
    }
}

/// A marker reads back as a marker for the row it was made for.
pub proof fn law_marker_reads_back(block: u32, offset: u16)
    ensures
        decoded(header(MARKER, block, offset)) == (MARKER, block, offset, Seq::<Seq<char>>::empty()),
{
    let data = header(MARKER, block, offset);
    assert(data.take(7) =~= data);
    lemma_header_fields(data, MARKER, block, offset);
}

proof fn lemma_header_fields(data: Seq<u8>, tag: u8, block: u32, offset: u16)
    requires
        data.len() >= 7,
        data.take(7) == header(tag, block, offset),
    ensures
        data[0] == tag,
        get32(data, 1) == block,
        get16(data, 5) == offset,
{
    let h = header(tag, block, offset);
    assert(forall|i: int| 0 <= i < 7 ==> data[i] == #[trigger] data.take(7)[i]);
    assert(h[0] == tag);
    assert(h[1] == le32(block as int)[0]);
    assert(h[2] == le32(block as int)[1]);
    assert(h[3] == le32(block as int)[2]);
    assert(h[4] == le32(block as int)[3]);
    assert(h[5] == le16(offset as int)[0]);
    assert(h[6] == le16(offset as int)[1]);
    let b = block as int;
    assert(b / 65536 == b / 256 / 256);
    assert(b / 16777216 == b / 65536 / 256);
}

proof fn lemma_surface_bytes_from_front(surfaces: Seq<Seq<char>>)
    requires
        surfaces.len() > 0,
    ensures
        surface_bytes(surfaces) == le16(encode_utf8(surfaces[0]).len() as int % 65536)
            + encode_utf8(surfaces[0]) + surface_bytes(surfaces.drop_first()),
    decreases surfaces.len(),
{
    let b = encode_utf8(surfaces[0]);
    if surfaces.len() == 1 {
        assert(surface_bytes(surfaces.drop_last()) =~= Seq::<u8>::empty());
        assert(surface_bytes(surfaces.drop_first()) =~= Seq::<u8>::empty());
        assert(surface_bytes(surfaces) =~= le16(b.len() as int % 65536) + b + surface_bytes(
            surfaces.drop_first(),
        ));
    } else {
        lemma_surface_bytes_from_front(surfaces.drop_last());
        assert(surfaces.drop_last().drop_first() =~= surfaces.drop_first().drop_last());
        assert(surface_bytes(surfaces) =~= le16(b.len() as int % 65536) + b + surface_bytes(
            surfaces.drop_first(),
        ));
    }
}

proof fn lemma_read_surfaces(data: Seq<u8>, pos: int, surfaces: Seq<Seq<char>>)
    requires
        0 <= pos <= data.len(),
        data.skip(pos) == surface_bytes(surfaces),
        forall|i: int|
            0 <= i < surfaces.len() ==> encode_utf8(#[trigger] surfaces[i]).len() <= 65535,
    ensures
        read_surfaces(data, pos, surfaces.len()) == surfaces,
    decreases surfaces.len(),
{
    if surfaces.len() == 0 {
        assert(read_surfaces(data, pos, 0) =~= surfaces);
    } else {
        lemma_surface_bytes_from_front(surfaces);
        let b = encode_utf8(surfaces[0]);
        let rest = surfaces.drop_first();
        let tail = data.skip(pos);
        let end = pos + 2 + b.len();
        assert(tail.len() >= 2 + b.len());
        assert(data[pos] == tail[0]);
        assert(data[pos + 1] == tail[1]);
        assert(tail[0] == le16(b.len() as int)[0]);
        assert(tail[1] == le16(b.len() as int)[1]);
        assert(get16(data, pos) == b.len());
        assert(data.subrange(pos + 2, end) =~= tail.subrange(2, (2 + b.len()) as int));
        assert(tail.subrange(2, (2 + b.len()) as int) =~= b);
        assert(tail.skip((2 + b.len()) as int) =~= surface_bytes(rest));
        assert(data.skip(end) =~= tail.skip((2 + b.len()) as int));
        lemma_read_surfaces(data, end, rest);
        encode_utf8_valid_utf8(surfaces[0]);
        encode_utf8_decode_utf8(surfaces[0]);
        assert(seq![surfaces[0]] + rest =~= surfaces);
    }
}

/// What a mentions record is made of reads back unchanged: the row and every
/// surface, in order. It takes at most 65535 surfaces of at most 65535 bytes
/// each, for the record counts in 16 bits.
pub proof fn law_mentions_read_back(block: u32, offset: u16, surfaces: Seq<Seq<char>>)
    requires
        surfaces.len() <= 65535,
        forall|i: int|
            0 <= i < surfaces.len() ==> encode_utf8(#[trigger] surfaces[i]).len() <= 65535,
    ensures
        decoded(mention_bytes(block, offset, surfaces)) == (MENTIONS, block, offset, surfaces),
{
    let data = mention_bytes(block, offset, surfaces);
    let n = surfaces.len() as int;
    assert(data.take(7) =~= header(MENTIONS, block, offset));
    lemma_header_fields(data, MENTIONS, block, offset);
    assert(data[7] == le16(n)[0]);
    assert(data[8] == le16(n)[1]);
    assert(get16(data, 7) == n);
    assert(data.skip(9) =~= surface_bytes(surfaces));
    lemma_read_surfaces(data, 9, surfaces);
}

/// Whatever the surfaces, a mentions record names the row it was made for and
/// is no marker.
pub proof fn law_mentions_keep_their_row(block: u32, offset: u16, surfaces: Seq<Seq<char>>)
    ensures
        decoded(mention_bytes(block, offset, surfaces)).0 == MENTIONS,
        row_of(mention_bytes(block, offset, surfaces)) == (block, offset),
{
    let data = mention_bytes(block, offset, surfaces);
    assert(data.take(7) =~= header(MENTIONS, block, offset));
    lemma_header_fields(data, MENTIONS, block, offset);
}

/// The records that were answered not to be dead, in order.
pub open spec fn spared(records: Seq<Seq<u8>>, answers: Seq<bool>) -> Seq<Seq<u8>>
    decreases records.len(),
{
    if records.len() == 0 {
        seq![]
    } else {
        let before = spared(records.drop_last(), answers);
        if answers[records.len() - 1] {
            before
        } else {
            before.push(records.last())
        }
    }
}

/// A scan of a pruned page finds exactly the records that were answered not to
/// be dead, in the same order and unaltered, and as many line pointers were
/// marked as records are gone.
pub proof fn law_prune_spares_the_rest(page: Seq<Option<Seq<u8>>>, answers: Seq<bool>)
    requires
        answers.len() == page_records(page).len(),
    ensures
        page_records(pruned_by(page, answers)) == spared(page_records(page), answers),
        page_records(pruned_by(page, answers)).len() + dead_offsets(page, answers).len()
            == page_records(page).len(),
{
    lemma_prune_spares(page, answers);
}

proof fn lemma_prune_spares(page: Seq<Option<Seq<u8>>>, answers: Seq<bool>)
    ensures
        page_records(pruned_by(page, answers)) == spared(page_records(page), answers),
        page_records(pruned_by(page, answers)).len() + dead_offsets(page, answers).len()
            == page_records(page).len(),
    decreases page.len(),
{
    if page.len() > 0 {
        let front = page.drop_last();
        lemma_prune_spares(front, answers);
        assert(pruned_by(page, answers).drop_last() =~= pruned_by(front, answers));
        if let Some(r) = page.last() {
            assert(page_records(front).push(r).drop_last() =~= page_records(front));
        }
    }
}

/// The answers for all pages, one after the other.
pub open spec fn all_answers(answers: Seq<Seq<bool>>) -> Seq<bool>
    decreases answers.len(),
{
    if answers.len() == 0 {
        seq![]
    } else {
        all_answers(answers.drop_last()) + answers.last()
    }
}

/// How many line pointers are marked dead on all pages.
pub open spec fn marked(pages: Seq<Seq<Option<Seq<u8>>>>, answers: Seq<Seq<bool>>) -> nat
    decreases pages.len(),
{
    if pages.len() == 0 {
        0
    } else {
        marked(pages.drop_last(), answers.drop_last()) + dead_offsets(
            pages.last(),
            answers.last(),
        ).len()
    }
}

/// Every page pruned by its own answers.
pub open spec fn pruned_pages(pages: Seq<Seq<Option<Seq<u8>>>>, answers: Seq<Seq<bool>>) -> Seq<
    Seq<Option<Seq<u8>>>,
> {
    Seq::new(pages.len(), |i: int| pruned_by(pages[i], answers[i]))
}

proof fn lemma_spared_append(
    a: Seq<Seq<u8>>,
    b: Seq<Seq<u8>>,
    x: Seq<bool>,
    y: Seq<bool>,
)
    requires
        x.len() == a.len(),
        b.len() <= y.len(),
    ensures
        spared(a + b, x + y) == spared(a, x) + spared(b, y),
    decreases b.len(),
{
    if b.len() == 0 {
        assert(a + b =~= a);
        lemma_spared_prefix(a, x, y);
        assert(spared(a, x) + spared(b, y) =~= spared(a, x));
    } else {
        lemma_spared_append(a, b.drop_last(), x, y);
        assert((a + b).drop_last() =~= a + b.drop_last());
        assert((a + b).last() == b.last());
        assert((x + y)[(a + b).len() - 1] == y[b.len() - 1]);
        assert(spared(a + b, x + y) =~= spared(a, x) + spared(b, y));
    }
}

proof fn lemma_spared_prefix(a: Seq<Seq<u8>>, x: Seq<bool>, y: Seq<bool>)
    requires
        a.len() <= x.len(),
    ensures
        spared(a, x + y) == spared(a, x),
    decreases a.len(),
{
    if a.len() > 0 {
        lemma_spared_prefix(a.drop_last(), x, y);
        assert((x + y)[a.len() - 1] == x[a.len() - 1]);
    }
}

/// Pruning every page asks once for each record that a scan finds, in order; a
/// scan afterwards finds those that were answered not to be dead, in order and
/// unaltered; and as many line pointers were marked as records are gone.
pub proof fn law_prune_over_all_pages_spares_the_rest(
    pages: Seq<Seq<Option<Seq<u8>>>>,
    answers: Seq<Seq<bool>>,
)
    requires
        answers.len() == pages.len(),
        forall|i: int|
            0 <= i < pages.len() ==> (#[trigger] answers[i]).len() == page_records(pages[i]).len(),
    ensures
        all_answers(answers).len() == all_records(pages).len(),
        all_records(pruned_pages(pages, answers)) == spared(
            all_records(pages),
            all_answers(answers),
        ),
        all_records(pruned_pages(pages, answers)).len() + marked(pages, answers) == all_records(
            pages,
        ).len(),
    decreases pages.len(),
{
    if pages.len() == 0 {
        assert(pruned_pages(pages, answers) =~= pages);
    } else {
        let front = pages.drop_last();
        let said = answers.drop_last();
        assert forall|i: int| 0 <= i < front.len() implies (#[trigger] said[i]).len()
            == page_records(front[i]).len() by {
            assert(said[i] == answers[i]);
        }
        law_prune_over_all_pages_spares_the_rest(front, said);
        assert(answers[pages.len() - 1] == answers.last());
        lemma_prune_spares(pages.last(), answers.last());
        assert(pruned_pages(pages, answers).drop_last() =~= pruned_pages(front, said));
        assert(pruned_pages(pages, answers).last() == pruned_by(pages.last(), answers.last()));
        lemma_spared_append(
            all_records(front),
            page_records(pages.last()),
            all_answers(said),
            answers.last(),
        );
    }
}

/// Where the answers say whether each record's row is in a set, pruning takes
/// out exactly the records of the rows in the set.
pub proof fn law_a_set_of_rows_answers(
    page: Seq<Option<Seq<u8>>>,
    answers: Seq<bool>,
    dead: Set<(u32, u16)>,
)
    requires
        answers == page_records(page).map_values(|r: Seq<u8>| dead.contains(row_of(r))),
    ensures
        pruned_by(page, answers) == pruned(page, dead),
{
    lemma_set_answers(page, answers, dead);
}

proof fn lemma_set_answers(
    page: Seq<Option<Seq<u8>>>,
    answers: Seq<bool>,
    dead: Set<(u32, u16)>,
)
    requires
        page_records(page).len() <= answers.len(),
        forall|i: int|
            0 <= i < page_records(page).len() ==> answers[i] == dead.contains(
                row_of(#[trigger] page_records(page)[i]),
            ),
    ensures
        pruned_by(page, answers) == pruned(page, dead),
    decreases page.len(),
{
    if page.len() == 0 {
        assert(pruned_by(page, answers) =~= pruned(page, dead));
    } else {
        let front = page.drop_last();
        assert forall|i: int| 0 <= i < page_records(front).len() implies answers[i]
            == dead.contains(row_of(#[trigger] page_records(front)[i])) by {
            assert(page_records(page)[i] == page_records(front)[i]);
        }
        lemma_set_answers(front, answers, dead);
        if let Some(r) = page.last() {
            let n = page_records(front).len() as int;
            assert(page_records(page)[n] == r);
        }
        assert(pruned_by(page, answers) =~= pruned(page, dead));
    }
}

/// A scan of a page without the records of dead rows finds exactly those of the
/// rows that are not dead, in the same order.
pub proof fn law_prune_removes_exactly_the_dead(
    page: Seq<Option<Seq<u8>>>,
    dead: Set<(u32, u16)>,
)
    ensures
        page_records(pruned(page, dead)) == page_records(page).filter(
            |r: Seq<u8>| !dead.contains(row_of(r)),
        ),
    decreases page.len(),
{
    let keep = |r: Seq<u8>| !dead.contains(row_of(r));
    reveal_with_fuel(Seq::filter, 2);
    if page.len() == 0 {
        assert(page_records(page).filter(keep) =~= Seq::<Seq<u8>>::empty());
        assert(page_records(pruned(page, dead)) =~= Seq::<Seq<u8>>::empty());
    } else {
        law_prune_removes_exactly_the_dead(page.drop_last(), dead);
        assert(pruned(page, dead).drop_last() =~= pruned(page.drop_last(), dead));
        let before = page_records(page.drop_last());
        match page.last() {
            Some(r) => {
                assert(before.push(r).drop_last() =~= before);
            },
            None => {},
        }
    }
}

/// Pruning every page of a set of rows leaves exactly the records of the other
/// rows to be scanned, in the same order.
pub proof fn law_prune_over_all_pages(
    pages: Seq<Seq<Option<Seq<u8>>>>,
    dead: Set<(u32, u16)>,
)
    ensures
        all_records(pages.map_values(|p: Seq<Option<Seq<u8>>>| pruned(p, dead))) == all_records(
            pages,
        ).filter(|r: Seq<u8>| !dead.contains(row_of(r))),
    decreases pages.len(),
{
    let keep = |r: Seq<u8>| !dead.contains(row_of(r));
    let f = |p: Seq<Option<Seq<u8>>>| pruned(p, dead);
    if pages.len() == 0 {
        reveal(Seq::filter);
        assert(all_records(pages).filter(keep) =~= Seq::<Seq<u8>>::empty());
    } else {
        law_prune_over_all_pages(pages.drop_last(), dead);
        law_prune_removes_exactly_the_dead(pages.last(), dead);
        assert(pages.map_values(f).drop_last() =~= pages.drop_last().map_values(f));
        Seq::filter_distributes_over_add(
            all_records(pages.drop_last()),
            page_records(pages.last()),
            keep,
        );
    }
}

/// A record placed at the end of the last page, or alone on a fresh page, is
/// scanned after all the others, and nothing else changes.
pub proof fn law_append_adds_the_record_last(
    pages: Seq<Seq<Option<Seq<u8>>>>,
    record: Seq<u8>,
)
    ensures
        all_records(pages.push(seq![Some(record)])) == all_records(pages).push(record),
        pages.len() > 0 ==> all_records(
            pages.drop_last().push(pages.last().push(Some(record))),
        ) == all_records(pages).push(record),
{
    let fresh = seq![Some(record)];
    assert(pages.push(fresh).drop_last() =~= pages);
    assert(fresh.drop_last() =~= Seq::<Option<Seq<u8>>>::empty());
    assert(page_records(fresh.drop_last()) =~= Seq::<Seq<u8>>::empty());
    assert(fresh.last() == Some(record));
    assert(page_records(fresh) =~= seq![record]);
    assert(all_records(pages) + seq![record] =~= all_records(pages).push(record));
    if pages.len() > 0 {
        let last = pages.last().push(Some(record));
        assert(last.drop_last() =~= pages.last());
        assert(pages.drop_last().push(last).drop_last() =~= pages.drop_last());
        assert(all_records(pages.drop_last().push(last)) =~= all_records(pages).push(record));
    }
}

/// An append comes to an end after a fresh page was tried.
pub proof fn law_append_ends_on_a_fresh_page(placed: bool)
    ensures
        !(append_step(NEW_BLOCK, placed) is Try),
{
}

/// How a record starts: the tag, the block in four bytes and the offset in two,
/// the low byte first.
pub proof fn law_how_a_record_starts(tag: u8, block: u32, offset: u16)
    ensures
        ({
            let h = header(tag, block, offset);
            &&& h.len() == 7
            &&& h[0] == tag
            &&& h[1] + 256 * h[2] + 65536 * h[3] + 16777216 * h[4] == block
            &&& h[5] + 256 * h[6] == offset
        }),
{
    let h = header(tag, block, offset);
    assert(h.take(7) =~= h);
    lemma_header_fields(h, tag, block, offset);
}

/// How a mentions record goes on: the number of surfaces in two bytes, and then
/// each surface's length in two bytes and its UTF-8 bytes, in order. Numbers
/// that do not fit are kept modulo 65536.
pub proof fn law_how_a_mentions_record_goes_on(
    block: u32,
    offset: u16,
    a: Seq<Seq<char>>,
    b: Seq<Seq<char>>,
    x: Seq<char>,
)
    ensures
        ({
            let d = mention_bytes(block, offset, a);
            &&& d.len() >= 9
            &&& d.take(7) == header(1, block, offset)
            &&& d[7] + 256 * d[8] == a.len() % 65536
            &&& d.skip(9) == surface_bytes(a)
        }),
        surface_bytes(Seq::empty()).len() == 0,
        ({
            let s = surface_bytes(seq![x]);
            &&& s.len() == 2 + encode_utf8(x).len()
            &&& s[0] + 256 * s[1] == encode_utf8(x).len() % 65536
            &&& s.skip(2) == encode_utf8(x)
        }),
        surface_bytes(a + b) == surface_bytes(a) + surface_bytes(b),
    decreases b.len(),
{
    let d = mention_bytes(block, offset, a);
    assert(d.take(7) =~= header(1, block, offset));
    assert(d[7] == le16(a.len() as int % 65536)[0]);
    assert(d[8] == le16(a.len() as int % 65536)[1]);
    assert(d.skip(9) =~= surface_bytes(a));
    let none = Seq::<Seq<char>>::empty();
    assert(seq![x].drop_last() =~= none);
    assert(surface_bytes(none) =~= Seq::<u8>::empty());
    assert(seq![x].last() == x);
    let s = surface_bytes(seq![x]);
    let n = encode_utf8(x).len() as int % 65536;
    assert(s =~= le16(n) + encode_utf8(x));
    assert(s.skip(2) =~= encode_utf8(x));
    if b.len() == 0 {
        assert(a + b =~= a);
        assert(surface_bytes(a) + surface_bytes(b) =~= surface_bytes(a));
    } else {
        law_how_a_mentions_record_goes_on(block, offset, a, b.drop_last(), x);
        assert((a + b).drop_last() =~= a + b.drop_last());
        assert((a + b).last() == b.last());
        assert(surface_bytes(a + b) =~= surface_bytes(a) + surface_bytes(b));
    }
}

/// How any bytes are read as a record: fewer than seven as an empty marker;
/// else the tag, the block and the offset stand at their places, and only a
/// mentions record of at least nine bytes has surfaces, as many as its count
/// says and its bytes hold.
pub proof fn law_how_bytes_are_read(data: Seq<u8>)
    ensures
        data.len() < 7 ==> decoded(data) == (0u8, 0u32, 0u16, Seq::<Seq<char>>::empty()),
        data.len() >= 7 ==> {
            &&& decoded(data).0 == data[0]
            &&& decoded(data).1 == data[1] + 256 * data[2] + 65536 * data[3] + 16777216 * data[4]
            &&& decoded(data).2 == data[5] + 256 * data[6]
            &&& row_of(data) == (decoded(data).1, decoded(data).2)
        },
        data.len() >= 7 && (data[0] != 1 || data.len() < 9) ==> decoded(data).3.len() == 0,
        data.len() >= 9 && data[0] == 1 ==> decoded(data).3 == read_surfaces(
            data,
            9,
            (data[7] + 256 * data[8]) as nat,
        ),
{
    if data.len() >= 7 {
        assert(0 <= get32(data, 1) <= 4294967295);
        assert(0 <= get16(data, 5) <= 65535);
    }
}

/// How surfaces are read: where one is still to come and its length and its
/// bytes are all there, it is read and the rest follows; otherwise reading
/// ends. Valid UTF-8 is read as the text it encodes.
pub proof fn law_how_surfaces_are_read(data: Seq<u8>, pos: int, n: nat)
    requires
        0 <= pos <= data.len(),
    ensures
        n == 0 || pos + 2 > data.len() || pos + 2 + data[pos] + 256 * data[pos + 1] > data.len()
            ==> read_surfaces(data, pos, n).len() == 0,
        n > 0 && pos + 2 <= data.len() && pos + 2 + data[pos] + 256 * data[pos + 1] <= data.len()
            ==> ({
            let end = pos + 2 + data[pos] + 256 * data[pos + 1];
            let bytes = data.subrange(pos + 2, end);
            let all = read_surfaces(data, pos, n);
            &&& all.len() > 0
            &&& valid_utf8(bytes) ==> all[0] == decode_utf8(bytes)
            &&& !valid_utf8(bytes) ==> all[0] == utf8_lossy(bytes)
            &&& all.skip(1) == read_surfaces(data, end, (n - 1) as nat)
        }),
{
    if n > 0 && pos + 2 <= data.len() && pos + 2 + data[pos] + 256 * data[pos + 1] <= data.len() {
        let end = pos + 2 + get16(data, pos);
        let rest = read_surfaces(data, end, (n - 1) as nat);
        assert(read_surfaces(data, pos, n).skip(1) =~= rest);
    }
}

/// A row's place is written as its block and its offset in decimal, with a
/// comma between and brackets around.
pub proof fn law_how_a_place_is_written(block: u32, offset: u16)
    ensures
        ctid_text((block, offset)) == "("@ + decimal(block as nat) + ","@ + decimal(offset as nat)
            + ")"@,
{
    reveal_strlit("(");
    reveal_strlit(",");
    reveal_strlit(")");
    assert("("@ =~= seq!['(']);
    assert(","@ =~= seq![',']);
    assert(")"@ =~= seq![')']);
}

/// Of a page every line pointer in use is read, in order, and no other.
pub proof fn law_every_live_record_of_a_page_is_read(
    a: Seq<Option<Seq<u8>>>,
    b: Seq<Option<Seq<u8>>>,
    x: Option<Seq<u8>>,
)
    ensures
        page_records(Seq::<Option<Seq<u8>>>::empty()).len() == 0,
        x is Some ==> page_records(seq![x]) == seq![x->0],
        x is None ==> page_records(seq![x]).len() == 0,
        page_records(a + b) == page_records(a) + page_records(b),
    decreases b.len(),
{
    assert(seq![x].drop_last() =~= Seq::<Option<Seq<u8>>>::empty());
    assert(page_records(Seq::<Option<Seq<u8>>>::empty()).len() == 0);
    assert(seq![x].last() == x);
    if b.len() == 0 {
        assert(a + b =~= a);
        assert(page_records(a) + page_records(b) =~= page_records(a));
    } else {
        law_every_live_record_of_a_page_is_read(a, b.drop_last(), x);
        assert((a + b).drop_last() =~= a + b.drop_last());
        assert((a + b).last() == b.last());
        assert(page_records(a + b) =~= page_records(a) + page_records(b));
    }
}

/// Every page is scanned, in order, and each for its own records.
pub proof fn law_every_page_is_scanned(
    a: Seq<Seq<Option<Seq<u8>>>>,
    b: Seq<Seq<Option<Seq<u8>>>>,
    x: Seq<Option<Seq<u8>>>,
)
    ensures
        all_records(Seq::<Seq<Option<Seq<u8>>>>::empty()).len() == 0,
        all_records(seq![x]) == page_records(x),
        all_records(a + b) == all_records(a) + all_records(b),
    decreases b.len(),
{
    assert(seq![x].drop_last() =~= Seq::<Seq<Option<Seq<u8>>>>::empty());
    assert(all_records(Seq::<Seq<Option<Seq<u8>>>>::empty()).len() == 0);
    assert(seq![x].last() == x);
    assert(all_records(seq![x]) =~= page_records(x));
    if b.len() == 0 {
        assert(a + b =~= a);
        assert(all_records(a) + all_records(b) =~= all_records(a));
    } else {
        law_every_page_is_scanned(a, b.drop_last(), x);
        assert((a + b).drop_last() =~= a + b.drop_last());
        assert((a + b).last() == b.last());
        assert(all_records(a + b) =~= all_records(a) + all_records(b));
    }
}

/// Pages and records are seen whole: each line pointer at its place, with its
/// bytes.
pub proof fn law_pages_and_records_are_seen_whole(
    records: Seq<Vec<u8>>,
    pages: Seq<Page>,
    page: Page,
)
    ensures
        contents(records).len() == records.len(),
        forall|i: int| 0 <= i < records.len() ==> #[trigger] contents(records)[i] == records[i]@,
        page_views(pages).len() == pages.len(),
        forall|i: int| 0 <= i < pages.len() ==> #[trigger] page_views(pages)[i] == pages[i]@,
        page@.len() == page.slots@.len(),
        forall|i: int|
            0 <= i < page@.len() ==> (#[trigger] page@[i] is Some) == (page.slots@[i] is Some),
        forall|i: int|
            0 <= i < page@.len() && page.slots@[i] is Some ==> #[trigger] page@[i] == Some(
                page.slots@[i]->0@,
            ),
{
}

/// What pruning does to each line pointer: one that is not in use stays so, and
/// one in use is emptied exactly when the answer for its record, counted among
/// the live records before it, says dead.
pub proof fn law_what_pruning_does_to_each_slot(
    page: Seq<Option<Seq<u8>>>,
    answers: Seq<bool>,
    i: int,
)
    requires
        0 <= i < page.len(),
    ensures
        pruned_by(page, answers).len() == page.len(),
        pruned_by(page, answers)[i] == (if page[i] is Some && answers[page_records(
            page.take(i),
        ).len() as int] {
            None
        } else {
            page[i]
        }),
    decreases page.len(),
{
    let front = page.drop_last();
    if front.len() > 0 {
        law_what_pruning_does_to_each_slot(front, answers, if i < front.len() { i } else { 0 });
    } else {
        assert(pruned_by(front, answers).len() == 0);
    }
    if i < front.len() {
        assert(front.take(i) =~= page.take(i));
    } else {
        assert(front =~= page.take(i));
    }
}

/// Which line pointers are marked dead: exactly those in use whose record was
/// answered to be dead, each by its offset number, in ascending order.
pub proof fn law_which_line_pointers_are_marked(page: Seq<Option<Seq<u8>>>, answers: Seq<bool>)
    requires
        page.len() <= 65535,
    ensures
        forall|i: int|
            0 <= i < page.len() ==> (dead_offsets(page, answers).contains((i + 1) as u16) <==> (
            #[trigger] page[i]) is Some && answers[page_records(page.take(i)).len() as int]),
        forall|k: int|
            0 <= k < dead_offsets(page, answers).len() ==> 1 <= #[trigger] dead_offsets(
                page,
                answers,
            )[k] <= page.len(),
        forall|k: int, m: int|
            0 <= k < m < dead_offsets(page, answers).len() ==> (#[trigger] dead_offsets(
                page,
                answers,
            )[k]) < #[trigger] dead_offsets(page, answers)[m],
    decreases page.len(),
{
    if page.len() > 0 {
        let front = page.drop_last();
        let before = dead_offsets(front, answers);
        let all = dead_offsets(page, answers);
        law_which_line_pointers_are_marked(front, answers);
        assert forall|i: int| 0 <= i < page.len() implies (all.contains((i + 1) as u16) <==> (
        #[trigger] page[i]) is Some && answers[page_records(page.take(i)).len() as int]) by {
            let off = (i + 1) as u16;
            if i < front.len() {
                assert(front[i] == page[i]);
                assert(front.take(i) =~= page.take(i));
                if before.contains(off) {
                    let k = choose|k: int| 0 <= k < before.len() && before[k] == off;
                    assert(all[k] == off);
                }
                if all.contains(off) {
                    let k = choose|k: int| 0 <= k < all.len() && all[k] == off;
                    assert(k < before.len());
                    assert(before[k] == off);
                }
            } else {
                assert(page.take(i) =~= front);
                if all.len() > before.len() {
                    assert(all[before.len() as int] == off);
                } else if all.contains(off) {
                    let k = choose|k: int| 0 <= k < all.len() && all[k] == off;
                    assert(before[k] <= front.len());
                }
            }
        }
    }
}

/// The tags, and the block number that asks for a fresh page, are those that
/// the records and Postgres know.
pub proof fn law_the_tags_and_the_fresh_block()
    ensures
        MARKER == 0,
        MENTIONS == 1,
        NEW_BLOCK == 4294967295,
{
}

/// What follows an attempt to place a record: nothing where it was placed; a
/// fresh page where a page of the relation did not hold it; and an end where
/// not even a fresh page did.
pub proof fn law_what_follows_an_attempt(block: u32)
    ensures
        append_step(block, true) == AppendStep::Done,
        block != 4294967295 ==> append_step(block, false) == AppendStep::Try(4294967295),
        append_step(4294967295, false) == AppendStep::TooLarge,
{
}

} // verus!
