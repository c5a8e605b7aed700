//! The route table gateway's computing half: reading the routing command's
//! tabular listing into an address set, and translating a command's exit
//! into a verdict. The listing's first two lines are headers; each further
//! line begins with a whitespace-delimited address field.

use vstd::prelude::*;
use crate::addr::{Address, spec_parse_addr, parse_addr};
use crate::error::SyncError;
use crate::reconcile::no_dups;
use crate::text::{spec_lines, spec_split, spec_strip_cr, text_lines, split_bytes, strip_cr,
    lemma_split_len};

verus! {

pub const SPACE: u8 = 32;

/// The listing's body: its lines past the two headers.
pub open spec fn table_body(out: Seq<u8>) -> Seq<Seq<u8>> {
    if spec_lines(out).len() <= 2 {
        Seq::empty()
    } else {
        spec_lines(out).skip(2)
    }
}

/// A body line's first whitespace-delimited field.
pub open spec fn table_field(line: Seq<u8>) -> Seq<u8> {
    spec_split(spec_strip_cr(line), SPACE)[0]
}

/// The address a body line lists, if its first field is a valid literal.
pub open spec fn table_line_addr(line: Seq<u8>) -> Option<Address> {
    spec_parse_addr(table_field(line))
}

/// The set of reject-route addresses a routing-table listing shows. A
/// listing whose command exited non-zero is a `ProcessExit` failure with
/// the captured output and no implicated address; otherwise the first
/// whitespace-delimited field of every body line must be a valid literal,
/// and the first invalid one is a `Parse` failure naming its line.
#[verifier::rlimit(100)]
pub fn parse_route_table(success: bool, stdout: Vec<u8>, stderr: Vec<u8>) -> (r: Result<
    Vec<Address>,
    SyncError,
>)
    ensures
        !success ==> (r matches Err(e) && (e matches SyncError::ProcessExit {
            address: a,
            stdout: o,
            stderr: er,
        } && a is None && o@ == stdout@ && er@ == stderr@)),
        success ==> match r {
            Ok(v) => {
                &&& forall|i: int|
                    0 <= i < table_body(stdout@).len() ==> (#[trigger] table_line_addr(
                        table_body(stdout@)[i],
                    )) is Some
                &&& forall|a: Address|
                    #[trigger] v@.contains(a) <==> exists|i: int|
                        0 <= i < table_body(stdout@).len() && table_line_addr(
                            table_body(stdout@)[i],
                        ) == Some(a)
                &&& no_dups(v@)
            },
            Err(e) => {
                let body = table_body(stdout@);
                exists|i: int|
                    0 <= i < body.len() && table_line_addr(body[i]) is None && (forall|j: int|
                        0 <= j < i ==> (#[trigger] table_line_addr(body[j])) is Some) && (e matches
                    SyncError::Parse { line } && line@ == body[i])
            },
        },
{
    if !success {
        return Err(SyncError::ProcessExit { address: None, stdout, stderr });
    }
    let ghost body = table_body(stdout@);
    let mut lines = text_lines(stdout.as_slice());
    let mut out: Vec<Address> = Vec::new();
    if lines.len() <= 2 {
        return Ok(out);
    }
    let mut i: usize = 2;
    while i < lines.len()
        invariant
            success,
            2 <= i <= lines@.len(),
            lines@.map_values(|v: Vec<u8>| v@) == spec_lines(stdout@),
            lines@.len() > 2,
            body == table_body(stdout@),
            body == spec_lines(stdout@).skip(2),
            forall|k: int|
                0 <= k < i - 2 ==> (#[trigger] table_line_addr(body[k])) is Some,
            forall|a: Address|
                #[trigger] out@.contains(a) <==> exists|k: int|
                    0 <= k < i - 2 && table_line_addr(body[k]) == Some(a),
            no_dups(out@),
        decreases lines@.len() - i,
    {
        let ghost k: int = i - 2;
        let stripped = strip_cr(lines[i].as_slice());
        let fields = split_bytes(stripped.as_slice(), SPACE);
        proof {
            lemma_split_len(stripped@, SPACE);
            assert(body[k] == lines@[i as int]@);
            assert(fields@.map_values(|v: Vec<u8>| v@)[0] == table_field(body[k]));
        }
        match parse_addr(fields[0].as_slice()) {
            Some(a) => {
                proof {
                    assert(table_line_addr(body[k]) == Some(a));
                }
                let ghost pre = out@;
                if !crate::reconcile::contains_addr(&out, &a) {
                    out.push(a);
                    proof {
                        assert forall|x: Address| #[trigger] out@.contains(x) implies (exists|
                            m: int,
                        |
                            0 <= m < k + 1 && table_line_addr(body[m]) == Some(x)) by {
                            let idx = choose|idx: int| 0 <= idx < out@.len() && out@[idx] == x;
                            if idx < pre.len() {
                                assert(pre[idx] == x);
                                assert(pre.contains(x));
                            } else {
                                assert(x == a);
                                assert(table_line_addr(body[k]) == Some(x));
                            }
                        }
                        assert forall|x: Address|
                            (exists|m: int|
                                0 <= m < k + 1 && table_line_addr(body[m]) == Some(
                                    x,
                                )) implies #[trigger] out@.contains(x) by {
                            let m = choose|m: int|
                                0 <= m < k + 1 && table_line_addr(body[m]) == Some(x);
                            if m < k {
                                assert(pre.contains(x));
                                let idx = choose|idx: int|
                                    0 <= idx < pre.len() && pre[idx] == x;
                                assert(out@[idx] == x);
                            } else {
                                assert(out@[pre.len() as int] == x);
                            }
                        }
                        assert forall|i1: int, j1: int| 0 <= i1 < j1 < out@.len() implies out@[i1]
                            != out@[j1] by {
                            if j1 == pre.len() {
                                assert(out@[i1] == pre[i1]);
                                assert(pre.contains(pre[i1]));
                            }
                        }
                    }
                } else {
                    proof {
                        assert forall|x: Address|
                            (exists|m: int|
                                0 <= m < k + 1 && table_line_addr(body[m]) == Some(
                                    x,
                                )) implies #[trigger] out@.contains(x) by {
                            let m = choose|m: int|
                                0 <= m < k + 1 && table_line_addr(body[m]) == Some(x);
                            if m == k {
                                assert(x == a);
                            }
                        }
                        assert forall|x: Address| #[trigger] out@.contains(x) implies (exists|
                            m: int,
                        |
                            0 <= m < k + 1 && table_line_addr(body[m]) == Some(x)) by {
                            let m = choose|m: int|
                                0 <= m < k && table_line_addr(body[m]) == Some(x);
                            assert(0 <= m < k + 1 && table_line_addr(body[m]) == Some(x));
                        }
                    }
                }
            },
            None => {
                proof {
                    assert(table_line_addr(body[k]) is None);
                }
                let bad = lines.remove(i);
                return Err(SyncError::Parse { line: bad });
            },
        }
        i += 1;
    }
    proof {
        assert(body.len() == lines@.len() - 2);
    }
    Ok(out)
}

/// The routing command's exit, translated: exit status zero is success;
/// anything else carries the captured output and the implicated address.
pub fn check_exit(success: bool, address: Address, stdout: Vec<u8>, stderr: Vec<u8>) -> (r: Result<
    (),
    SyncError,
>)
    ensures
        success <==> r is Ok,
        !success ==> (r matches Err(e) && (e matches SyncError::ProcessExit {
            address: a2,
            stdout: o2,
            stderr: e2,
        } && a2 == Some(address) && o2@ == stdout@ && e2@ == stderr@)),
{
    if success {
        Ok(())
    } else {
        Err(SyncError::ProcessExit { address: Some(address), stdout, stderr })
    }
}

} // verus!
