//! The client-side command language: one line of text per request.
//! `GET <key>`, `SET <key> <data>`, `DELETE <key>`, and
//! `KEYS <take> <skip>` parse into protocol commands; anything else
//! is no command. The interactive prompt around this — the socket,
//! the terminal — lives outside the library.

use vstd::prelude::*;
use vstd::slice::{slice_index_get, slice_to_vec};

use crate::proto::{CmdModel, RequestCommand};

verus! {

/// Whether `b` holds a space from position `from` on.
pub open spec fn has_space_from(b: Seq<u8>, from: int) -> bool {
    exists|i: int| from <= i < b.len() && b[i] == 32
}

/// The first space at or after `from`, unique by its clause on what
/// stands before it.
pub open spec fn spec_space_at(b: Seq<u8>, from: int) -> int {
    choose|i: int|
        from <= i < b.len() && b[i] == 32 && (forall|j: int| from <= j < i ==> b[j] != 32)
}

/// Digits only, and at least one.
pub open spec fn all_digits(b: Seq<u8>) -> bool {
    b.len() > 0 && forall|i: int| 0 <= i < b.len() ==> 48 <= #[trigger] b[i] <= 57
}

/// The number a digit string denotes.
pub open spec fn spec_decimal(b: Seq<u8>) -> int
    decreases b.len(),
{
    if b.len() == 0 {
        0
    } else {
        spec_decimal(b.drop_last()) * 10 + (b.last() - 48)
    }
}

/// A digit string that denotes a machine-word count.
pub open spec fn spec_is_usize_decimal(b: Seq<u8>) -> bool {
    all_digits(b) && spec_decimal(b) <= usize::MAX as int
}

/// The bytes of the verb `GET`.
pub open spec fn spec_get_verb() -> Seq<u8> {
    seq![71u8, 69u8, 84u8]
}

/// The bytes of the verb `SET`.
pub open spec fn spec_set_verb() -> Seq<u8> {
    seq![83u8, 69u8, 84u8]
}

/// The bytes of the verb `DELETE`.
pub open spec fn spec_delete_verb() -> Seq<u8> {
    seq![68u8, 69u8, 76u8, 69u8, 84u8, 69u8]
}

/// The bytes of the verb `KEYS`.
pub open spec fn spec_keys_verb() -> Seq<u8> {
    seq![75u8, 69u8, 89u8, 83u8]
}

/// What one prompt line means:
/// - a verb alone, an unknown verb, or an empty line is no command;
/// - `GET` and `DELETE` take the whole remainder as the key;
/// - `SET` splits its remainder at the first space into key and
///   data, and the data may itself contain spaces;
/// - `KEYS` wants two counts, each all digits and fitting the
///   machine word.
pub open spec fn spec_parse_line(b: Seq<u8>) -> Option<CmdModel> {
    if !has_space_from(b, 0) {
        None
    } else {
        let i = spec_space_at(b, 0);
        let verb = b.subrange(0, i);
        let rest = b.subrange(i + 1, b.len() as int);
        if verb == spec_get_verb() {
            Some(CmdModel::Get { key: rest })
        } else if verb == spec_delete_verb() {
            Some(CmdModel::Delete { key: rest })
        } else if verb == spec_set_verb() {
            if !has_space_from(rest, 0) {
                None
            } else {
                let j = spec_space_at(rest, 0);
                Some(
                    CmdModel::Put {
                        key: rest.subrange(0, j),
                        value: rest.subrange(j + 1, rest.len() as int),
                    },
                )
            }
        } else if verb == spec_keys_verb() {
            if !has_space_from(rest, 0) {
                None
            } else {
                let j = spec_space_at(rest, 0);
                let take = rest.subrange(0, j);
                let skip = rest.subrange(j + 1, rest.len() as int);
                if spec_is_usize_decimal(take) && spec_is_usize_decimal(skip) {
                    Some(
                        CmdModel::Keys {
                            take: spec_decimal(take) as u64,
                            skip: spec_decimal(skip) as u64,
                        },
                    )
                } else {
                    None
                }
            }
        } else {
            None
        }
    }
}

/// The position of the first space at or after `from`, if any.
fn find_space(b: &[u8], from: usize) -> (r: Option<usize>)
    requires
        from <= b@.len(),
    ensures
        match r {
            Some(i) => {
                &&& from <= i < b@.len()
                &&& b@[i as int] == 32
                &&& forall|j: int| from <= j < i ==> b@[j] != 32
                &&& has_space_from(b@, from as int)
                &&& spec_space_at(b@, from as int) == i as int
            },
            None => !has_space_from(b@, from as int),
        },
{
    let n = b.len();
    let mut i = from;
    while i < n
        invariant
            from <= i <= n,
            n == b@.len(),
            forall|j: int| from <= j < i ==> b@[j] != 32,
        decreases n - i,
    {
        if *slice_index_get(b, i) == 32 {
            proof {
                let w = spec_space_at(b@, from as int);
                assert(from <= w < b@.len() && b@[w] == 32 && (forall|j: int|
                    from <= j < w ==> b@[j] != 32));
                if w < i as int {
                    assert(b@[w] != 32);
                }
                if w > i as int {
                    assert(b@[i as int] != 32);
                }
            }
            return Some(i);
        }
        i = i + 1;
    }
    None
}

/// The value a digit string denotes is never negative.
proof fn lemma_decimal_nonneg(b: Seq<u8>)
    requires
        forall|i: int| 0 <= i < b.len() ==> 48 <= #[trigger] b[i] <= 57,
    ensures
        spec_decimal(b) >= 0,
    decreases b.len(),
{
    if b.len() > 0 {
        lemma_decimal_nonneg(b.drop_last());
    }
}

/// Dropping trailing digits never increases the denoted value.
proof fn lemma_decimal_prefix_bound(b: Seq<u8>, k: int)
    requires
        0 <= k <= b.len(),
        forall|i: int| 0 <= i < b.len() ==> 48 <= #[trigger] b[i] <= 57,
    ensures
        spec_decimal(b.subrange(0, k)) <= spec_decimal(b),
    decreases b.len() - k,
{
    if k < b.len() {
        lemma_decimal_prefix_bound(b, k + 1);
        let p = b.subrange(0, k);
        let q = b.subrange(0, k + 1);
        assert(q.drop_last() =~= p);
        assert(q.last() == b[k]);
        lemma_decimal_nonneg(p);
    } else {
        assert(b.subrange(0, k) =~= b);
    }
}

/// Parses the digit string `b[from..to]` as a count, rejecting
/// non-digits and values beyond the machine word.
fn parse_decimal(b: &[u8], from: usize, to: usize) -> (r: Option<usize>)
    requires
        from <= to <= b@.len(),
    ensures
        ({
            let d = b@.subrange(from as int, to as int);
            match r {
                Some(v) => spec_is_usize_decimal(d) && v == spec_decimal(d),
                None => !spec_is_usize_decimal(d),
            }
        }),
{
    let ghost d = b@.subrange(from as int, to as int);
    if from == to {
        return None;
    }
    let mut acc: usize = 0;
    let mut k = from;
    while k < to
        invariant
            from <= k <= to <= b@.len(),
            d == b@.subrange(from as int, to as int),
            forall|i: int| 0 <= i < k - from ==> 48 <= #[trigger] d[i] <= 57,
            acc == spec_decimal(d.subrange(0, k - from)),
        decreases to - k,
    {
        let c = *slice_index_get(b, k);
        if c < 48 || c > 57 {
            proof {
                assert(d[k - from] == c);
                assert(!all_digits(d));
            }
            return None;
        }
        let digit = (c - 48) as usize;
        proof {
            assert(d.subrange(0, k - from + 1).drop_last() =~= d.subrange(0, k - from));
            assert(d.subrange(0, k - from + 1).last() == d[k - from]);
        }
        if acc > (usize::MAX - digit) / 10 {
            proof {
                let p = d.subrange(0, k - from + 1);
                assert(spec_decimal(p) == acc * 10 + digit);
                assert(acc * 10 + digit > usize::MAX) by (nonlinear_arith)
                    requires
                        acc > (usize::MAX - digit) / 10,
                        0 <= digit <= 9,
                {
                }
                if all_digits(d) {
                    lemma_decimal_prefix_bound(d, k - from + 1);
                    assert(spec_decimal(d) > usize::MAX);
                }
            }
            return None;
        }
        proof {
            assert(acc * 10 + digit <= usize::MAX) by (nonlinear_arith)
                requires
                    acc <= (usize::MAX - digit) / 10,
                    0 <= digit <= 9,
            {
            }
        }
        acc = acc * 10 + digit;
        k = k + 1;
    }
    proof {
        assert(d.subrange(0, to - from) =~= d);
        assert(all_digits(d));
        assert(spec_decimal(d) <= usize::MAX);
    }
    Some(acc)
}

/// Whether `b[0..end]` spells this verb.
fn verb_is(b: &[u8], end: usize, verb: &[u8]) -> (r: bool)
    requires
        end <= b@.len(),
    ensures
        r == (b@.subrange(0, end as int) == verb@),
{
    if end != verb.len() {
        proof {
            assert(b@.subrange(0, end as int).len() != verb@.len());
        }
        return false;
    }
    let sub = vstd::slice::slice_subrange(b, 0, end);
    crate::cache::bytes_eq(sub, verb)
}

/// Parses one prompt line into a protocol command, by the grammar of
/// [`spec_parse_line`]. A line that names no complete command parses
/// to nothing.
#[verifier::rlimit(100)]
pub fn parse_line(line: &[u8]) -> (r: Option<RequestCommand>)
    ensures
        match r {
            Some(c) => spec_parse_line(line@) == Some(c@),
            None => spec_parse_line(line@) is None,
        },
{
    let total = line.len();
    let i = match find_space(line, 0) {
        Some(i) => i,
        None => {
            return None;
        },
    };
    let ghost rest = line@.subrange(i as int + 1, total as int);
    let mut get_verb: Vec<u8> = Vec::new();
    get_verb.push(71);
    get_verb.push(69);
    get_verb.push(84);
    proof {
        assert(get_verb@ =~= spec_get_verb());
    }
    if verb_is(line, i, get_verb.as_slice()) {
        let key = slice_to_vec(vstd::slice::slice_subrange(line, i + 1, total));
        proof {
            assert(key@ =~= rest);
        }
        return Some(RequestCommand::Get(key));
    }
    let mut delete_verb: Vec<u8> = Vec::new();
    delete_verb.push(68);
    delete_verb.push(69);
    delete_verb.push(76);
    delete_verb.push(69);
    delete_verb.push(84);
    delete_verb.push(69);
    proof {
        assert(delete_verb@ =~= spec_delete_verb());
    }
    if verb_is(line, i, delete_verb.as_slice()) {
        let key = slice_to_vec(vstd::slice::slice_subrange(line, i + 1, total));
        proof {
            assert(key@ =~= rest);
        }
        return Some(RequestCommand::Delete(key));
    }
    let mut set_verb: Vec<u8> = Vec::new();
    set_verb.push(83);
    set_verb.push(69);
    set_verb.push(84);
    proof {
        assert(set_verb@ =~= spec_set_verb());
    }
    if verb_is(line, i, set_verb.as_slice()) {
        let j = match find_space(line, i + 1) {
            Some(j) => j,
            None => {
                proof {
                    assert forall|x: int| 0 <= x < rest.len() implies rest[x] != 32 by {
                        assert(line@[i as int + 1 + x] != 32);
                    }
                }
                return None;
            },
        };
        proof {
            assert(rest[j - i - 1] == 32);
            assert(has_space_from(rest, 0));
            let w = spec_space_at(rest, 0);
            assert(0 <= w < rest.len() && rest[w] == 32 && (forall|x: int|
                0 <= x < w ==> rest[x] != 32));
            assert(line@[i as int + 1 + w] == 32);
            if w < j - i - 1 {
                assert(false);
            }
            if w > j - i - 1 {
                assert(rest[j - i - 1] != 32);
                assert(false);
            }
        }
        let key = slice_to_vec(vstd::slice::slice_subrange(line, i + 1, j));
        let value = slice_to_vec(vstd::slice::slice_subrange(line, j + 1, total));
        proof {
            assert(key@ =~= rest.subrange(0, j - i - 1));
            assert(value@ =~= rest.subrange(j - i - 1 + 1, rest.len() as int));
        }
        return Some(RequestCommand::Put(key, value));
    }
    let mut keys_verb: Vec<u8> = Vec::new();
    keys_verb.push(75);
    keys_verb.push(69);
    keys_verb.push(89);
    keys_verb.push(83);
    proof {
        assert(keys_verb@ =~= spec_keys_verb());
    }
    if verb_is(line, i, keys_verb.as_slice()) {
        let j = match find_space(line, i + 1) {
            Some(j) => j,
            None => {
                proof {
                    assert forall|x: int| 0 <= x < rest.len() implies rest[x] != 32 by {
                        assert(line@[i as int + 1 + x] != 32);
                    }
                }
                return None;
            },
        };
        proof {
            assert(rest[j - i - 1] == 32);
            assert(has_space_from(rest, 0));
            let w = spec_space_at(rest, 0);
            assert(0 <= w < rest.len() && rest[w] == 32 && (forall|x: int|
                0 <= x < w ==> rest[x] != 32));
            assert(line@[i as int + 1 + w] == 32);
            if w < j - i - 1 {
                assert(false);
            }
            if w > j - i - 1 {
                assert(rest[j - i - 1] != 32);
                assert(false);
            }
        }
        let take = match parse_decimal(line, i + 1, j) {
            Some(v) => v,
            None => {
                proof {
                    assert(line@.subrange(i as int + 1, j as int) =~= rest.subrange(
                        0,
                        j - i - 1,
                    ));
                }
                return None;
            },
        };
        let skip = match parse_decimal(line, j + 1, total) {
            Some(v) => v,
            None => {
                proof {
                    assert(line@.subrange(j as int + 1, total as int) =~= rest.subrange(
                        j - i - 1 + 1,
                        rest.len() as int,
                    ));
                }
                return None;
            },
        };
        proof {
            assert(line@.subrange(i as int + 1, j as int) =~= rest.subrange(0, j - i - 1));
            assert(line@.subrange(j as int + 1, total as int) =~= rest.subrange(
                j - i - 1 + 1,
                rest.len() as int,
            ));
        }
        return Some(RequestCommand::Keys(take, skip));
    }
    None
}

} // verus!
