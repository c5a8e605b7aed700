//! The cache file: the last successfully resolved address set, one literal
//! per line. It is overwritten wholesale on every successful resolution and
//! read back only when resolution fails for want of connectivity. Absence
//! of the file is a valid initial state, not an error.

use vstd::prelude::*;
use crate::addr::{Address, spec_addr_bytes, spec_parse_addr, format_addr, parse_addr,
    lemma_addr_bytes_class, lemma_parse_format};
use crate::error::SyncError;
use crate::text::{LF, spec_join, spec_lines, spec_strip_cr, join_bytes, text_lines, strip_cr,
    lemma_split_join};

verus! {

/// The address a single line denotes, its line ending stripped.
pub open spec fn line_addr(line: Seq<u8>) -> Option<Address> {
    spec_parse_addr(spec_strip_cr(line))
}

/// The per-line parse results of a cache text.
pub open spec fn spec_cache_entries(text: Seq<u8>) -> Seq<Option<Address>> {
    spec_lines(text).map_values(|l: Seq<u8>| line_addr(l))
}

/// The text a cache write produces: the literals joined by newlines.
pub open spec fn spec_cache_text(addrs: Seq<Address>) -> Seq<u8> {
    spec_join(addrs.map_values(|a: Address| spec_addr_bytes(a)), LF)
}

/// The cache file's content for `addrs`: one canonical literal per line.
pub fn format_cache(addrs: &Vec<Address>) -> (r: Vec<u8>)
    ensures
        r@ == spec_cache_text(addrs@),
{
    let mut parts: Vec<Vec<u8>> = Vec::new();
    let mut i: usize = 0;
    while i < addrs.len()
        invariant
            0 <= i <= addrs@.len(),
            parts@.len() == i,
            forall|k: int| 0 <= k < i ==> #[trigger] parts@[k]@ == spec_addr_bytes(addrs@[k]),
        decreases addrs@.len() - i,
    {
        let piece = format_addr(&addrs[i]);
        parts.push(piece);
        i += 1;
    }
    proof {
        assert(parts@.map_values(|v: Vec<u8>| v@) =~~= addrs@.map_values(
            |a: Address| spec_addr_bytes(a),
        ));
    }
    join_bytes(&parts, LF)
}

/// The addresses in a cache text, in line order. An unparseable line is a
/// `CacheParse` failure naming the first such line.
pub fn parse_cache(text: &[u8]) -> (r: Result<Vec<Address>, SyncError>)
    ensures
        match r {
            Ok(v) => v@.map_values(|a: Address| Some(a)) == spec_cache_entries(text@),
            Err(e) => {
                let ents = spec_cache_entries(text@);
                exists|i: int|
                    0 <= i < ents.len() && ents[i] is None && (forall|j: int|
                        0 <= j < i ==> (#[trigger] ents[j]) is Some) && (e matches
                    SyncError::CacheParse { line } && line@ == spec_lines(text@)[i])
            },
        },
{
    let ghost ents = spec_cache_entries(text@);
    let mut lines = text_lines(text);
    let mut out: Vec<Address> = Vec::new();
    let mut i: usize = 0;
    while i < lines.len()
        invariant
            0 <= i <= lines@.len(),
            lines@.map_values(|v: Vec<u8>| v@) == spec_lines(text@),
            ents == spec_cache_entries(text@),
            out@.len() == i,
            forall|k: int| 0 <= k < i ==> #[trigger] ents[k] == Some(out@[k]),
        decreases lines@.len() - i,
    {
        let stripped = strip_cr(lines[i].as_slice());
        match parse_addr(stripped.as_slice()) {
            Some(a) => {
                proof {
                    assert(ents[i as int] == line_addr(lines@[i as int]@));
                }
                out.push(a);
            },
            None => {
                proof {
                    assert(ents[i as int] == line_addr(lines@[i as int]@));
                    assert(ents[i as int] is None);
                    assert(forall|j: int| 0 <= j < i ==> (#[trigger] ents[j]) is Some);
                }
                let bad = lines.remove(i);
                return Err(SyncError::CacheParse { line: bad });
            },
        }
        i += 1;
    }
    proof {
        assert(out@.map_values(|a: Address| Some(a)) =~~= ents);
    }
    Ok(out)
}

/// What reading the cache file yielded: its bytes, or no file at all.
pub enum CacheRead {
    Found(Vec<u8>),
    Absent,
}

/// The cached address set. A missing file is an empty set, not an error;
/// an unreadable line in an existing file is surfaced.
pub fn load_cache(read: &CacheRead) -> (r: Result<Vec<Address>, SyncError>)
    ensures
        match read {
            CacheRead::Absent => r matches Ok(v) && v@.len() == 0,
            CacheRead::Found(t) => match r {
                Ok(v) => v@.map_values(|a: Address| Some(a)) == spec_cache_entries(t@),
                Err(e) => {
                    let ents = spec_cache_entries(t@);
                    exists|i: int|
                        0 <= i < ents.len() && ents[i] is None && (forall|j: int|
                            0 <= j < i ==> (#[trigger] ents[j]) is Some) && (e matches
                        SyncError::CacheParse { line } && line@ == spec_lines(t@)[i])
                },
            },
        },
{
    match read {
        CacheRead::Absent => Ok(Vec::new()),
        CacheRead::Found(t) => parse_cache(t.as_slice()),
    }
}

/// Round trip: parsing a written cache restores the written addresses,
/// line for line.
pub proof fn lemma_cache_round_trip(addrs: Seq<Address>)
    ensures
        spec_cache_entries(spec_cache_text(addrs)) == addrs.map_values(|a: Address| Some(a)),
{
    let parts = addrs.map_values(|a: Address| spec_addr_bytes(a));
    if addrs.len() == 0 {
        assert(spec_join(parts, LF) =~= Seq::<u8>::empty());
        assert(crate::text::spec_split(Seq::<u8>::empty(), LF) =~~= seq![Seq::<u8>::empty()]);
        assert(spec_lines(spec_cache_text(addrs)) =~~= Seq::<Seq<u8>>::empty());
        assert(spec_cache_entries(spec_cache_text(addrs)) =~~= addrs.map_values(
            |a: Address| Some(a),
        ));
    } else {
        assert forall|i: int, j: int|
            0 <= i < parts.len() && 0 <= j < parts[i].len() implies #[trigger] parts[i][j]
            != LF by {
            lemma_addr_bytes_class(addrs[i]);
        }
        lemma_split_join(parts, LF);
        let text = spec_cache_text(addrs);
        assert(crate::text::spec_split(text, LF) =~~= parts);
        lemma_addr_bytes_class(addrs[addrs.len() - 1]);
        assert(parts.last().len() > 0);
        assert(spec_lines(text) =~~= parts);
        assert forall|i: int| 0 <= i < parts.len() implies #[trigger] spec_cache_entries(text)[i]
            == Some(addrs[i]) by {
            lemma_addr_bytes_class(addrs[i]);
            assert(parts[i].last() != crate::text::CR);
            assert(spec_strip_cr(parts[i]) == parts[i]);
            lemma_parse_format(addrs[i]);
        }
        assert(spec_cache_entries(text) =~~= addrs.map_values(|a: Address| Some(a)));
    }
}

} // verus!
