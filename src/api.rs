use vstd::prelude::*;

use crate::types::{upper_of, Symbol};

verus! {

/// `sep` occurs in `cs` at `k` and nowhere else.
pub open spec fn sole_at(cs: Seq<char>, sep: char, k: int) -> bool {
    &&& 0 <= k < cs.len()
    &&& cs[k] == sep
    &&& forall|j: int| 0 <= j < cs.len() && j != k ==> cs[j] != sep
}

/// Body of an error reply.
#[derive(Debug, Clone)]
pub struct ErrorResponse {
    pub error: String,
    pub message: String,
}

/// A symbol text that could not be read.
#[derive(Debug, Clone, Copy, PartialEq, Eq, Structural)]
pub struct SymbolFormatError;

/// Whether `sep` occurs, and where, if it occurs exactly once.
fn sole_index(s: &str, sep: char) -> (r: (bool, Option<usize>))
    ensures
        r.0 == s@.contains(sep),
        match r.1 {
            Some(k) => sole_at(s@, sep, k as int),
            None => forall|k: int| !sole_at(s@, sep, k),
        },
{
    let n = s.unicode_len();
    let mut first: Option<usize> = None;
    let mut twice = false;
    let mut i: usize = 0;
    while i < n
        invariant
            n == s@.len(),
            i <= n,
            first.is_none() ==> !twice && forall|j: int| 0 <= j < i ==> s@[j] != sep,
            first.is_some() ==> {
                let f = first.unwrap() as int;
                &&& f < i
                &&& s@[f] == sep
                &&& !twice ==> forall|j: int| 0 <= j < i && j != f ==> s@[j] != sep
                &&& twice ==> exists|j: int| 0 <= j < i && j != f && s@[j] == sep
            },
        decreases n - i,
    {
        if s.get_char(i) == sep {
            match first {
                None => {
                    first = Some(i);
                },
                Some(f) => {
                    twice = true;
                    assert(i as int != f as int && s@[i as int] == sep);
                },
            }
        }
        i = i + 1;
    }
    let present = first.is_some();
    proof {
        if present {
            assert(s@[first.unwrap() as int] == sep);
        }
    }
    if twice {
        proof {
            let f = first.unwrap() as int;
            assert forall|k: int| !sole_at(s@, sep, k) by {
                if sole_at(s@, sep, k) {
                    let j = choose|j: int| 0 <= j < n && j != f && s@[j] == sep;
                    if k == f {
                        assert(s@[j] != sep);
                    } else {
                        assert(s@[f] != sep);
                    }
                }
            }
        }
        (present, None)
    } else {
        (present, first)
    }
}

/// The two tokens of `s` around its only `sep`, upper-cased.
fn split_around(s: &str, k: usize) -> (r: Symbol)
    requires
        k < s@.len(),
    ensures
        r.base@ == upper_of(s@.take(k as int)),
        r.quote@ == upper_of(s@.skip(k + 1)),
{
    let n = s.unicode_len();
    let base = s.substring_char(0, k);
    let quote = s.substring_char(k + 1, n);
    proof {
        assert(s@.subrange(0, k as int) =~= s@.take(k as int));
        assert(s@.subrange(k + 1, n as int) =~= s@.skip(k + 1));
    }
    Symbol::new(base, quote)
}

/// Reads `BASE-QUOTE`, `BASE/QUOTE`, or `BASEQUOTE` of at least six characters (split
/// after the third). A text with a separator needs exactly one of the first kind found.
pub fn parse_symbol(symbol_str: &str) -> (r: Result<Symbol, SymbolFormatError>)
    ensures
        symbol_str@.contains('-') ==> {
            &&& r.is_ok() <==> exists|k: int| sole_at(symbol_str@, '-', k)
            &&& forall|k: int| sole_at(symbol_str@, '-', k) ==> r.is_ok() && r.unwrap().base@ == upper_of(
                symbol_str@.take(k),
            ) && r.unwrap().quote@ == upper_of(symbol_str@.skip(k + 1))
        },
        !symbol_str@.contains('-') && symbol_str@.contains('/') ==> {
            &&& r.is_ok() <==> exists|k: int| sole_at(symbol_str@, '/', k)
            &&& forall|k: int| sole_at(symbol_str@, '/', k) ==> r.is_ok() && r.unwrap().base@ == upper_of(
                symbol_str@.take(k),
            ) && r.unwrap().quote@ == upper_of(symbol_str@.skip(k + 1))
        },
        !symbol_str@.contains('-') && !symbol_str@.contains('/') ==> {
            &&& r.is_ok() <==> symbol_str@.len() >= 6
            &&& r.is_ok() ==> r.unwrap().base@ == upper_of(symbol_str@.take(3))
                && r.unwrap().quote@ == upper_of(symbol_str@.skip(3))
        },
{
    let (has_dash, dash) = sole_index(symbol_str, '-');
    if has_dash {
        return match dash {
            Some(k) => {
                proof {
                    assert forall|j: int| sole_at(symbol_str@, '-', j) implies j == k as int by {
                        if j != k as int {
                            assert(symbol_str@[j] != '-');
                        }
                    }
                }
                Ok(split_around(symbol_str, k))
            },
            None => Err(SymbolFormatError),
        };
    }
    let (has_slash, slash) = sole_index(symbol_str, '/');
    if has_slash {
        return match slash {
            Some(k) => {
                proof {
                    assert forall|j: int| sole_at(symbol_str@, '/', j) implies j == k as int by {
                        if j != k as int {
                            assert(symbol_str@[j] != '/');
                        }
                    }
                }
                Ok(split_around(symbol_str, k))
            },
            None => Err(SymbolFormatError),
        };
    }
    let n = symbol_str.unicode_len();
    if n < 6 {
        return Err(SymbolFormatError);
    }
    let base = symbol_str.substring_char(0, 3);
    let quote = symbol_str.substring_char(3, n);
    proof {
        assert(symbol_str@.subrange(0, 3) =~= symbol_str@.take(3));
        assert(symbol_str@.subrange(3, n as int) =~= symbol_str@.skip(3));
    }
    Ok(Symbol::new(base, quote))
}

} // verus!
