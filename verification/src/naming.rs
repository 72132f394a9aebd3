//! Automatic project ids.  A freshly created project is named
//! `project_N`, where `N` is one more than the largest number any
//! existing automatically named project carries, so new ids never
//! collide with old ones.

use crate::models::{AppData, ProjectView};
use vstd::prelude::*;

verus! {

/// `c` is a decimal digit.
pub open spec fn is_digit(c: char) -> bool {
    48 <= c as u32 <= 57
}

/// Numeric value of the first `i` characters of a digit run.
pub open spec fn digits_value(s: Seq<char>, i: int) -> int
    decreases i,
{
    if i <= 0 {
        0
    } else {
        digits_value(s, i - 1) * 10 + (s[i - 1] as u32 - 48)
    }
}

/// A digit run's value only grows with its length.
proof fn lemma_digits_grow(s: Seq<char>, i: int, j: int)
    requires
        0 <= i <= j <= s.len(),
        forall|k: int| 0 <= k < j ==> is_digit(#[trigger] s[k]),
    ensures
        0 <= digits_value(s, i) <= digits_value(s, j),
    decreases j,
{
    if j > 0 {
        if i == j {
            lemma_digits_grow(s, i - 1, j - 1);
        } else {
            lemma_digits_grow(s, i, j - 1);
        }
        assert(is_digit(s[j - 1]));
        assert(digits_value(s, j - 1) * 10 >= digits_value(s, j - 1)) by (nonlinear_arith)
            requires
                digits_value(s, j - 1) >= 0,
        ;
    }
}

/// The number carried by an automatically named project id: `project_`
/// followed by one or more decimal digits whose value fits a `u64`.
pub open spec fn parse_project_num(id: Seq<char>) -> Option<int> {
    if id.len() > 8 && id.subrange(0, 8) == "project_"@ && (forall|i: int|
        8 <= i < id.len() ==> is_digit(#[trigger] id[i])) && digits_value(
        id.skip(8),
        id.len() - 8,
    ) <= u64::MAX as int {
        Some(digits_value(id.skip(8), id.len() - 8))
    } else {
        None
    }
}

/// Parse an automatically assigned project id.
pub fn parse_project_id(id: &String) -> (r: Option<u64>)
    ensures
        match r {
            Some(v) => parse_project_num(id@) == Some(v as int),
            None => parse_project_num(id@) is None,
        },
{
    proof {
        reveal_strlit("project_");
    }
    let s = id.as_str();
    let n = s.unicode_len();
    if n <= 8 {
        return None;
    }
    let prefix: [char; 8] = ['p', 'r', 'o', 'j', 'e', 'c', 't', '_'];
    for i in 0..8usize
        invariant
            n as int == id@.len(),
            n > 8,
            s@ == id@,
            prefix@ =~= "project_"@,
            forall|k: int| 0 <= k < i ==> id@[k] == "project_"@[k],
    {
        if s.get_char(i) != prefix[i] {
            proof {
                assert(id@[i as int] != "project_"@[i as int]);
                assert(id@.subrange(0, 8) != "project_"@) by {
                    assert(id@.subrange(0, 8)[i as int] == id@[i as int]);
                }
            }
            return None;
        }
    }
    proof {
        assert(id@.subrange(0, 8) =~= "project_"@);
    }
    let ghost run = id@.skip(8);
    let mut v: u64 = 0;
    for i in 8..n
        invariant
            n as int == id@.len(),
            n > 8,
            s@ == id@,
            run == id@.skip(8),
            forall|k: int| 8 <= k < i ==> is_digit(#[trigger] id@[k]),
            v as int == digits_value(run, i - 8),
    {
        let c = s.get_char(i);
        let cv = c as u32;
        if cv < 48 || cv > 57 {
            proof {
                assert(!is_digit(id@[i as int]));
            }
            return None;
        }
        let d = (cv - 48) as u64;
        proof {
            assert(run[i as int - 8] == id@[i as int]);
            assert forall|k: int| 0 <= k < i as int - 8 + 1 implies is_digit(
                #[trigger] run[k],
            ) by {
                assert(run[k] == id@[k + 8]);
            }
        }
        if v > (u64::MAX - d) / 10 {
            proof {
                let md = (u64::MAX as int) - d;
                vstd::arithmetic::div_mod::lemma_fundamental_div_mod(md, 10);
                vstd::arithmetic::div_mod::lemma_mod_division_less_than_divisor(md, 10);
                assert((v as int) * 10 + d > u64::MAX as int) by (nonlinear_arith)
                    requires
                        v as int > md / 10,
                        md == 10 * (md / 10) + md % 10,
                        0 <= md % 10 < 10,
                        (u64::MAX as int) == md + d,
                ;
                assert(digits_value(run, i as int - 8 + 1) > u64::MAX as int);
                if forall|k: int| 8 <= k < id@.len() ==> is_digit(#[trigger] id@[k]) {
                    assert forall|k: int| 0 <= k < id@.len() - 8 implies is_digit(
                        #[trigger] run[k],
                    ) by {
                        assert(run[k] == id@[k + 8]);
                    }
                    lemma_digits_grow(run, i as int - 8 + 1, id@.len() - 8);
                }
            }
            return None;
        }
        v = v * 10 + d;
    }
    proof {
        assert forall|k: int| 0 <= k < id@.len() - 8 implies is_digit(#[trigger] run[k]) by {
            assert(run[k] == id@[k + 8]);
        }
        lemma_digits_grow(run, 0, id@.len() - 8);
    }
    Some(v)
}

/// Largest automatic project number among the first `i` projects.
pub open spec fn max_project_num(projects: Seq<ProjectView>, i: int) -> int
    decreases i,
{
    if i <= 0 {
        0
    } else {
        let prev = max_project_num(projects, i - 1);
        match parse_project_num(projects[i - 1].id) {
            Some(v) => if v > prev {
                v
            } else {
                prev
            },
            None => prev,
        }
    }
}

/// The number for the next automatically named project: one more than the
/// largest in use (saturating at the `u64` maximum), so the new
/// `project_N` id collides with no existing one.
pub fn next_project_number(doc: &AppData) -> (n: u64)
    ensures
        ({
            let m = max_project_num(doc@.projects, doc@.projects.len() as int);
            n as int == if m < u64::MAX as int {
                m + 1
            } else {
                m
            }
        }),
{
    let count = doc.projects.len();
    let mut m: u64 = 0;
    for i in 0..count
        invariant
            count == doc.projects.len(),
            m as int == max_project_num(doc@.projects, i as int),
    {
        assert(doc@.projects[i as int] == doc.projects@[i as int]@);
        match parse_project_id(&doc.projects[i].id) {
            Some(v) => {
                if v > m {
                    m = v;
                }
            },
            None => {},
        }
    }
    if m < u64::MAX {
        m + 1
    } else {
        m
    }
}

} // verus!
