//! Byte-level text helpers: splitting on a separator, joining with one, and
//! line extraction with the usual text-file conventions (a trailing final
//! newline delimits the last line rather than opening an empty one, and a
//! carriage return before the newline belongs to the line ending).

use vstd::prelude::*;

verus! {

pub const LF: u8 = 10;

pub const CR: u8 = 13;

/// The pieces of `s` between occurrences of `sep`: always at least one
/// piece, and one more piece than there are separators.
pub open spec fn spec_split(s: Seq<u8>, sep: u8) -> Seq<Seq<u8>>
    decreases s.len(),
{
    if s.len() == 0 {
        seq![Seq::<u8>::empty()]
    } else if s[0] == sep {
        seq![Seq::<u8>::empty()] + spec_split(s.skip(1), sep)
    } else {
        let rest = spec_split(s.skip(1), sep);
        seq![seq![s[0]] + rest[0]] + rest.skip(1)
    }
}

/// The pieces interleaved with the separator.
pub open spec fn spec_join(parts: Seq<Seq<u8>>, sep: u8) -> Seq<u8>
    decreases parts.len(),
{
    if parts.len() == 0 {
        Seq::<u8>::empty()
    } else if parts.len() == 1 {
        parts[0]
    } else {
        parts[0] + seq![sep] + spec_join(parts.skip(1), sep)
    }
}

pub proof fn lemma_split_len(s: Seq<u8>, sep: u8)
    ensures
        spec_split(s, sep).len() >= 1,
    decreases s.len(),
{
    if s.len() > 0 {
        lemma_split_len(s.skip(1), sep);
    }
}

/// A sequence free of the separator splits into itself alone.
pub proof fn lemma_split_no_sep(s: Seq<u8>, sep: u8)
    requires
        forall|i: int| 0 <= i < s.len() ==> s[i] != sep,
    ensures
        spec_split(s, sep) =~~= seq![s],
    decreases s.len(),
{
    if s.len() > 0 {
        lemma_split_no_sep(s.skip(1), sep);
        assert(spec_split(s, sep) =~~= seq![seq![s[0]] + s.skip(1)]);
        assert(seq![s[0]] + s.skip(1) =~= s);
    }
}

/// Splitting at the first separator: a separator-free prefix becomes the
/// first piece, and the remainder splits on its own.
pub proof fn lemma_split_prefix(x: Seq<u8>, y: Seq<u8>, sep: u8)
    requires
        forall|i: int| 0 <= i < x.len() ==> x[i] != sep,
    ensures
        spec_split(x + seq![sep] + y, sep) =~~= seq![x] + spec_split(y, sep),
    decreases x.len(),
{
    let s = x + seq![sep] + y;
    if x.len() == 0 {
        assert(s =~= seq![sep] + y);
        assert(s[0] == sep);
        assert(s.skip(1) =~= y);
    } else {
        lemma_split_prefix(x.skip(1), y, sep);
        assert(s[0] == x[0]);
        assert(s[0] != sep);
        assert(s.skip(1) =~= x.skip(1) + seq![sep] + y);
        let rest = spec_split(s.skip(1), sep);
        assert(rest =~~= seq![x.skip(1)] + spec_split(y, sep));
        lemma_split_len(y, sep);
        assert(rest[0] == x.skip(1));
        assert(seq![x[0]] + x.skip(1) =~= x);
        assert(rest.skip(1) =~~= spec_split(y, sep));
    }
}

/// Joining separator-free pieces and splitting again restores the pieces.
pub proof fn lemma_split_join(parts: Seq<Seq<u8>>, sep: u8)
    requires
        parts.len() >= 1,
        forall|i: int, j: int|
            0 <= i < parts.len() && 0 <= j < parts[i].len() ==> #[trigger] parts[i][j] != sep,
    ensures
        spec_split(spec_join(parts, sep), sep) =~~= parts,
    decreases parts.len(),
{
    if parts.len() == 1 {
        assert(forall|j: int| 0 <= j < parts[0].len() ==> parts[0][j] != sep);
        lemma_split_no_sep(parts[0], sep);
    } else {
        lemma_split_join(parts.skip(1), sep);
        assert(forall|j: int| 0 <= j < parts[0].len() ==> parts[0][j] != sep);
        lemma_split_prefix(parts[0], spec_join(parts.skip(1), sep), sep);
        assert(spec_join(parts, sep) == parts[0] + seq![sep] + spec_join(parts.skip(1), sep));
        assert(seq![parts[0]] + parts.skip(1) =~~= parts);
    }
}

/// A byte property that holds of the separator and of every piece holds of
/// the joined whole.
pub proof fn lemma_join_class(parts: Seq<Seq<u8>>, sep: u8, pred: spec_fn(u8) -> bool)
    requires
        pred(sep),
        forall|i: int, j: int|
            0 <= i < parts.len() && 0 <= j < parts[i].len() ==> pred(#[trigger] parts[i][j]),
    ensures
        forall|i: int|
            0 <= i < spec_join(parts, sep).len() ==> pred(#[trigger] spec_join(parts, sep)[i]),
    decreases parts.len(),
{
    if parts.len() == 0 {
    } else if parts.len() == 1 {
        assert(forall|j: int|
            0 <= j < spec_join(parts, sep).len() ==> spec_join(parts, sep)[j] == parts[0][j]);
    } else {
        lemma_join_class(parts.skip(1), sep, pred);
        let rest = spec_join(parts.skip(1), sep);
        assert forall|i: int| 0 <= i < spec_join(parts, sep).len() implies pred(
            #[trigger] spec_join(parts, sep)[i],
        ) by {
            let head = parts[0];
            if i < head.len() {
                assert(spec_join(parts, sep)[i] == head[i]);
            } else if i == head.len() {
                assert(spec_join(parts, sep)[i] == sep);
            } else {
                assert(spec_join(parts, sep)[i] == rest[i - head.len() - 1]);
            }
        }
    }
}

/// How `spec_join` grows when a piece is appended.
pub proof fn lemma_join_push(q: Seq<Seq<u8>>, x: Seq<u8>, sep: u8)
    ensures
        q.len() == 0 ==> spec_join(q.push(x), sep) =~= x,
        q.len() > 0 ==> spec_join(q.push(x), sep) =~= spec_join(q, sep) + seq![sep] + x,
    decreases q.len(),
{
    if q.len() == 0 {
        assert(q.push(x) =~= seq![x]);
    } else if q.len() == 1 {
        assert(q.push(x).skip(1) =~= seq![x]);
        assert(spec_join(q.push(x).skip(1), sep) == x);
    } else {
        lemma_join_push(q.skip(1), x, sep);
        assert(q.push(x).skip(1) =~= q.skip(1).push(x));
        assert(spec_join(q.push(x), sep) == q[0] + seq![sep] + spec_join(q.skip(1).push(x), sep));
        assert(q[0] + seq![sep] + (spec_join(q.skip(1), sep) + seq![sep] + x) =~= (q[0] + seq![sep]
            + spec_join(q.skip(1), sep)) + seq![sep] + x);
    }
}

/// The pieces of `s` between occurrences of `sep`.
pub fn split_bytes(s: &[u8], sep: u8) -> (r: Vec<Vec<u8>>)
    ensures
        r@.map_values(|v: Vec<u8>| v@) == spec_split(s@, sep),
{
    let ghost whole = spec_split(s@, sep);
    let mut done: Vec<Vec<u8>> = Vec::new();
    let mut cur: Vec<u8> = Vec::new();
    let mut i: usize = 0;
    proof {
        assert(s@.skip(0) =~= s@);
        lemma_split_len(s@, sep);
        assert(Seq::<u8>::empty() + whole[0] =~= whole[0]);
        assert(done@.map_values(|v: Vec<u8>| v@) + seq![Seq::<u8>::empty() + whole[0]]
            + whole.skip(1) =~~= whole);
    }
    while i < s.len()
        invariant
            0 <= i <= s@.len(),
            whole == spec_split(s@, sep),
            spec_split(s@.skip(i as int), sep).len() >= 1,
            whole =~~= done@.map_values(|v: Vec<u8>| v@) + seq![
                cur@ + spec_split(s@.skip(i as int), sep)[0],
            ] + spec_split(s@.skip(i as int), sep).skip(1),
        decreases s@.len() - i,
    {
        proof {
            assert(s@.skip(i as int)[0] == s@[i as int]);
            assert(s@.skip(i as int).skip(1) =~= s@.skip(i + 1 as int));
            lemma_split_len(s@.skip(i + 1 as int), sep);
        }
        let c = s[i];
        if c == sep {
            let finished = cur;
            cur = Vec::new();
            done.push(finished);
            proof {
                assert(spec_split(s@.skip(i as int), sep) =~~= seq![Seq::<u8>::empty()]
                    + spec_split(s@.skip(i + 1 as int), sep));
                assert(done@.map_values(|v: Vec<u8>| v@) =~~= done@.drop_last().map_values(
                    |v: Vec<u8>| v@,
                ).push(finished@));
                assert(finished@ + Seq::<u8>::empty() =~= finished@);
                assert(whole =~~= done@.map_values(|v: Vec<u8>| v@) + seq![
                    cur@ + spec_split(s@.skip(i + 1 as int), sep)[0],
                ] + spec_split(s@.skip(i + 1 as int), sep).skip(1));
            }
        } else {
            cur.push(c);
            proof {
                let rest = spec_split(s@.skip(i + 1 as int), sep);
                assert(spec_split(s@.skip(i as int), sep) =~~= seq![seq![s@[i as int]] + rest[0]]
                    + rest.skip(1));
                assert(cur@ + rest[0] =~= cur@.drop_last() + (seq![s@[i as int]] + rest[0]));
                assert(whole =~~= done@.map_values(|v: Vec<u8>| v@) + seq![cur@ + rest[0]]
                    + rest.skip(1));
            }
        }
        i += 1;
    }
    proof {
        assert(s@.skip(s@.len() as int) =~= Seq::<u8>::empty());
        assert(spec_split(Seq::<u8>::empty(), sep) =~~= seq![Seq::<u8>::empty()]);
        assert(cur@ + Seq::<u8>::empty() =~= cur@);
    }
    done.push(cur);
    proof {
        assert(done@.map_values(|v: Vec<u8>| v@) =~~= done@.drop_last().map_values(
            |v: Vec<u8>| v@,
        ).push(done@.last()@));
        assert(whole =~~= done@.map_values(|v: Vec<u8>| v@));
    }
    done
}

/// The pieces interleaved with the separator.
pub fn join_bytes(parts: &Vec<Vec<u8>>, sep: u8) -> (r: Vec<u8>)
    ensures
        r@ == spec_join(parts@.map_values(|v: Vec<u8>| v@), sep),
{
    let ghost all = parts@.map_values(|v: Vec<u8>| v@);
    let mut r: Vec<u8> = Vec::new();
    let mut i: usize = 0;
    while i < parts.len()
        invariant
            0 <= i <= parts@.len(),
            all == parts@.map_values(|v: Vec<u8>| v@),
            r@ == spec_join(all.take(i as int), sep),
        decreases parts@.len() - i,
    {
        if i > 0 {
            r.push(sep);
        }
        let mut j: usize = 0;
        let ghost base = r@;
        while j < parts[i].len()
            invariant
                0 <= j <= parts@[i as int]@.len(),
                i < parts@.len(),
                r@ == base + parts@[i as int]@.take(j as int),
            decreases parts@[i as int]@.len() - j,
        {
            let c = parts[i][j];
            r.push(c);
            proof {
                assert(parts@[i as int]@.take(j + 1 as int) =~= parts@[i as int]@.take(
                    j as int,
                ).push(parts@[i as int]@[j as int]));
                assert(base + parts@[i as int]@.take(j as int) + seq![parts@[i as int]@[j as int]]
                    =~= base + parts@[i as int]@.take(j + 1 as int));
            }
            j += 1;
        }
        proof {
            assert(parts@[i as int]@.take(parts@[i as int]@.len() as int) =~= parts@[i as int]@);
            lemma_join_push(all.take(i as int), all[i as int], sep);
            assert(all.take(i + 1 as int) =~= all.take(i as int).push(all[i as int]));
            if i > 0 {
                assert(r@ =~= spec_join(all.take(i as int), sep) + seq![sep] + all[i as int]);
            } else {
                assert(r@ =~= all[0]);
            }
        }
        i += 1;
    }
    proof {
        assert(all.take(all.len() as int) =~= all);
    }
    r
}

/// The lines of `text`: pieces between newlines, except that a final
/// newline closes the last line instead of starting an empty one.
pub open spec fn spec_lines(text: Seq<u8>) -> Seq<Seq<u8>> {
    let p = spec_split(text, LF);
    if p.len() > 0 && p.last().len() == 0 {
        p.drop_last()
    } else {
        p
    }
}

/// `line` without a trailing carriage return, if it carries one.
pub open spec fn spec_strip_cr(line: Seq<u8>) -> Seq<u8> {
    if line.len() > 0 && line.last() == CR {
        line.drop_last()
    } else {
        line
    }
}

/// The lines of `text`.
pub fn text_lines(text: &[u8]) -> (r: Vec<Vec<u8>>)
    ensures
        r@.map_values(|v: Vec<u8>| v@) == spec_lines(text@),
{
    let mut parts = split_bytes(text, LF);
    proof {
        lemma_split_len(text@, LF);
    }
    if parts.len() > 0 && parts[parts.len() - 1].len() == 0 {
        let _ = parts.pop();
        proof {
            assert(parts@.map_values(|v: Vec<u8>| v@) =~~= spec_split(text@, LF).drop_last());
        }
    }
    parts
}

/// `line` without a trailing carriage return, if it carries one.
pub fn strip_cr(line: &[u8]) -> (r: Vec<u8>)
    ensures
        r@ == spec_strip_cr(line@),
{
    let mut r: Vec<u8> = Vec::new();
    let n = if line.len() > 0 && line[line.len() - 1] == CR {
        line.len() - 1
    } else {
        line.len()
    };
    let mut i: usize = 0;
    while i < n
        invariant
            0 <= i <= n <= line@.len(),
            r@ == line@.take(n as int).take(i as int),
        decreases n - i,
    {
        let c = line[i];
        r.push(c);
        proof {
            assert(line@.take(n as int).take(i + 1 as int) =~= line@.take(n as int).take(
                i as int,
            ).push(line@[i as int]));
        }
        i += 1;
    }
    proof {
        assert(line@.take(n as int).take(n as int) =~= line@.take(n as int));
        if line@.len() > 0 && line@.last() == CR {
            assert(line@.take(line@.len() - 1) =~= line@.drop_last());
        } else {
            assert(line@.take(line@.len() as int) =~= line@);
        }
    }
    r
}

} // verus!
