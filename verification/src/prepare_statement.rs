//! Statement preparation: recognize the two statement shapes and validate
//! an insert's fields before execution.

use crate::meta_command::bytes_eq;
use crate::row::{COLUMN_EMAIL_SIZE, COLUMN_USERNAME_SIZE};
use crate::statement::{Statement, StatementType};
use vstd::prelude::*;
use vstd::string::StringSliceAdditionalSpecFns;

verus! {

/// How a statement line was prepared.
pub enum PrepareResult {
    PrepareSuccess,
    PrepareNegativeId,
    PrepareStringTooLong,
    PrepareSyntaxError,
    PrepareUnrecognizeStmt(String),
}

pub struct PrepareService {}

/// `b` is a prefix of `a`.
pub open spec fn spec_has_prefix(a: Seq<u8>, b: Seq<u8>) -> bool {
    a.len() >= b.len() && a.subrange(0, b.len() as int) == b
}

/// Whether the byte string starts with the given prefix.
pub fn bytes_prefix(a: &[u8], b: &[u8]) -> (r: bool)
    ensures
        r == spec_has_prefix(a@, b@),
{
    if a.len() < b.len() {
        return false;
    }
    let mut i: usize = 0;
    while i < b.len()
        invariant
            b@.len() <= a@.len(),
            i <= b@.len(),
            forall|j: int| 0 <= j < i ==> a@[j] == b@[j],
        decreases b@.len() - i,
    {
        if a[i] != b[i] {
            proof {
                assert(a@.subrange(0, b@.len() as int)[i as int] != b@[i as int]);
            }
            return false;
        }
        i = i + 1;
    }
    proof {
        assert(a@.subrange(0, b@.len() as int) =~= b@);
    }
    true
}

/// The numeric value of a digit string.
pub open spec fn spec_dec_val(s: Seq<u8>) -> int
    decreases s.len(),
{
    if s.len() == 0 {
        0
    } else {
        spec_dec_val(s.drop_last()) * 10 + (s.last() - 48)
    }
}

/// Every byte is a decimal digit.
pub open spec fn spec_all_digits(s: Seq<u8>) -> bool {
    forall|i: int| 0 <= i < s.len() ==> 48 <= #[trigger] s[i] <= 57
}

/// The byte string parses as a signed decimal integer: an optional sign,
/// then at least one digit.
pub open spec fn spec_dec_form(s: Seq<u8>) -> bool {
    &&& s.len() >= 1
    &&& (s[0] == 43 || s[0] == 45 || 48 <= s[0] <= 57)
    &&& ((s[0] == 43 || s[0] == 45) ==> s.len() >= 2 && spec_all_digits(s.subrange(1, s.len() as int)))
    &&& (48 <= s[0] <= 57 ==> spec_all_digits(s))
}

/// The signed value the byte string denotes.
pub open spec fn spec_dec_signed(s: Seq<u8>) -> int {
    if s.len() >= 1 && s[0] == 45 {
        -spec_dec_val(s.subrange(1, s.len() as int))
    } else if s.len() >= 1 && s[0] == 43 {
        spec_dec_val(s.subrange(1, s.len() as int))
    } else {
        spec_dec_val(s)
    }
}

/// A digit string's value only grows as digits are appended.
proof fn lemma_dec_val_grows(s: Seq<u8>, n: int)
    requires
        0 <= n <= s.len(),
        spec_all_digits(s),
    ensures
        spec_dec_val(s.subrange(0, n)) <= spec_dec_val(s),
        spec_dec_val(s) >= 0,
    decreases s.len() - n,
{
    if n == s.len() {
        assert(s.subrange(0, n) =~= s);
        lemma_dec_val_nonneg(s);
    } else {
        lemma_dec_val_grows(s, n + 1);
        let a = s.subrange(0, n);
        let b = s.subrange(0, n + 1);
        assert(b.drop_last() =~= a);
        lemma_dec_val_nonneg(a);
    }
}

/// A digit string's value is never negative.
proof fn lemma_dec_val_nonneg(s: Seq<u8>)
    ensures
        spec_dec_val(s) >= 0 || !spec_all_digits(s),
    decreases s.len(),
{
    if s.len() > 0 {
        lemma_dec_val_nonneg(s.drop_last());
        if spec_all_digits(s) {
            assert(spec_all_digits(s.drop_last()));
            assert(48 <= s.last() <= 57);
        }
    }
}

/// Parse a signed decimal integer, rejecting malformed input and values
/// outside the 32-bit signed range, exactly as the executable integer
/// parser the shell relies on does.
pub fn parse_i32(s: &[u8]) -> (r: Option<i32>)
    ensures
        r is Some <==> spec_dec_form(s@) && -2147483648 <= spec_dec_signed(s@) <= 2147483647,
        r is Some ==> r->0 == spec_dec_signed(s@),
{
    if s.len() == 0 {
        return None;
    }
    let negative = s[0] == 45u8;
    let signed = negative || s[0] == 43u8;
    let start: usize = if signed {
        1
    } else {
        0
    };
    if s.len() == start {
        return None;
    }
    let ghost digits = if signed {
        s@.subrange(1, s@.len() as int)
    } else {
        s@
    };
    let mut acc: i64 = 0;
    let mut i: usize = start;
    while i < s.len()
        invariant
            start <= i <= s@.len(),
            start == if (s@.len() >= 1 && (s@[0] == 43 || s@[0] == 45)) {
                1int
            } else {
                0int
            },
            digits == s@.subrange(start as int, s@.len() as int),
            0 <= acc <= 2147483648,
            spec_all_digits(s@.subrange(start as int, i as int)),
            acc == spec_dec_val(s@.subrange(start as int, i as int)),
        decreases s@.len() - i,
    {
        let c = s[i];
        if c < 48 || c > 57 {
            proof {
                assert(digits[i - start] == s@[i as int]);
                if spec_dec_form(s@) {
                    assert(spec_all_digits(digits));
                    assert(48 <= digits[i - start] <= 57);
                    assert(false);
                }
            }
            return None;
        }
        acc = acc * 10 + ((c - 48) as i64);
        proof {
            assert(s@.subrange(start as int, i as int + 1).drop_last() =~= s@.subrange(
                start as int,
                i as int,
            ));
            assert(s@.subrange(start as int, i as int + 1).last() == c);
        }
        if acc > 2147483648 {
            proof {
                let done = s@.subrange(start as int, i as int + 1);
                assert(acc == spec_dec_val(done));
                if spec_dec_form(s@) && -2147483648 <= spec_dec_signed(s@) <= 2147483647 {
                    assert(spec_all_digits(digits));
                    lemma_dec_val_grows(digits, i + 1 - start);
                    assert(digits.subrange(0, i + 1 - start) =~= done);
                    assert(spec_dec_val(digits) >= spec_dec_val(done));
                    assert(spec_dec_val(digits) >= acc);
                    if s@[0] == 45 {
                        assert(spec_dec_signed(s@) == -spec_dec_val(digits));
                        assert(spec_dec_val(digits) <= 2147483648);
                    } else {
                        if s@[0] == 43 {
                            assert(start == 1);
                        } else {
                            assert(start == 0);
                            assert(digits =~= s@);
                        }
                        assert(spec_dec_signed(s@) == spec_dec_val(digits));
                        assert(spec_dec_val(digits) <= 2147483647);
                    }
                    assert(false);
                }
            }
            return None;
        }
        i = i + 1;
    }
    proof {
        assert(s@.subrange(start as int, s@.len() as int) =~= digits);
    }
    if negative {
        if acc > 2147483648 {
            return None;
        }
        proof {
            assert(spec_dec_form(s@));
        }
        Some((-acc) as i32)
    } else {
        if acc > 2147483647 {
            proof {
                assert(spec_dec_signed(s@) == acc);
            }
            return None;
        }
        proof {
            assert(spec_dec_form(s@));
        }
        Some(acc as i32)
    }
}

impl PrepareService {
    pub fn new() -> (r: PrepareService)
        ensures
            true,
    {
        PrepareService {}
    }

    /// Recognize the statement shape: a line starting with the insert verb
    /// is parsed as an insert, one starting with the select verb becomes a
    /// select, anything else is unrecognized.
    pub fn prepare_statement(&self, line: &str, stmt: &mut Statement) -> (r: PrepareResult)
        requires
            old(stmt).row_to_insert.wf(),
        ensures
            final(stmt).row_to_insert.wf(),
            !(r is PrepareSuccess) ==> final(stmt).row_to_insert == old(stmt).row_to_insert,
            spec_has_prefix(line.spec_bytes(), "select".spec_bytes()) && !spec_has_prefix(
                line.spec_bytes(),
                "insert".spec_bytes(),
            ) ==> r is PrepareSuccess && final(stmt).stmt_type is StatementSelect,
            !spec_has_prefix(line.spec_bytes(), "insert".spec_bytes()) && !spec_has_prefix(
                line.spec_bytes(),
                "select".spec_bytes(),
            ) ==> r is PrepareUnrecognizeStmt && *final(stmt) == *old(stmt),
            spec_has_prefix(line.spec_bytes(), "insert".spec_bytes())
                ==> final(stmt).stmt_type is StatementInsert,
            r is PrepareSuccess && final(stmt).stmt_type is StatementInsert
                ==> final(stmt).row_to_insert.id == spec_dec_signed(
                spec_insert_id_part(line.spec_bytes()),
            ),
    {
        let b = line.as_bytes();
        if bytes_prefix(b, "insert".as_bytes()) {
            return self.prepare_insert(line, stmt);
        }
        if bytes_prefix(b, "select".as_bytes()) {
            stmt.stmt_type = StatementType::StatementSelect;
            return PrepareResult::PrepareSuccess;
        }
        PrepareResult::PrepareUnrecognizeStmt(line.to_owned())
    }

    /// Parse an insert line: the verb, a non-negative 32-bit id, a username
    /// within its capacity, and an email within its capacity whose trailing
    /// terminator character is dropped.
    fn prepare_insert(&self, line: &str, stmt: &mut Statement) -> (r: PrepareResult)
        requires
            old(stmt).row_to_insert.wf(),
        ensures
            final(stmt).row_to_insert.wf(),
            final(stmt).stmt_type is StatementInsert,
            !(r is PrepareSuccess) ==> final(stmt).row_to_insert == old(stmt).row_to_insert,
            r is PrepareSuccess ==> final(stmt).row_to_insert.id == spec_dec_signed(
                spec_insert_id_part(line.spec_bytes()),
            ),
    {
        stmt.stmt_type = StatementType::StatementInsert;
        let b = line.as_bytes();
        // find the positions of the separating spaces
        let mut spaces: Vec<usize> = Vec::new();
        let mut i: usize = 0;
        while i < b.len()
            invariant
                i <= b@.len(),
                spaces@.len() <= i,
                forall|k: int| 0 <= k < spaces@.len() ==> #[trigger] spaces@[k] < i,
                forall|k: int| 0 <= k < spaces@.len() ==> b@[spaces@[k] as int] == 32,
                forall|k1: int, k2: int|
                    0 <= k1 < k2 < spaces@.len() ==> spaces@[k1] < spaces@[k2],
                spaces@.map_values(|v: usize| v as int) =~= spec_space_positions(
                    b@.take(i as int),
                ),
            decreases b@.len() - i,
        {
            if b[i] == 32u8 {
                spaces.push(i);
            }
            proof {
                assert(b@.take(i as int + 1).drop_last() =~= b@.take(i as int));
            }
            i = i + 1;
        }
        proof {
            assert(b@.take(b@.len() as int) =~= b@);
            assert(spaces@.map_values(|v: usize| v as int) =~= spec_space_positions(b@));
        }
        if spaces.len() != 3 {
            return PrepareResult::PrepareSyntaxError;
        }
        let p1 = spaces[0];
        let p2 = spaces[1];
        let p3 = spaces[2];
        let id_part: &[u8] = &b[p1 + 1..p2];
        let username: &[u8] = &b[p2 + 1..p3];
        let email_full: &[u8] = &b[p3 + 1..b.len()];
        let id_num = match parse_i32(id_part) {
            Some(v) => v,
            None => {
                return PrepareResult::PrepareSyntaxError;
            },
        };
        if id_num < 0 {
            return PrepareResult::PrepareNegativeId;
        }
        if username.len() > COLUMN_USERNAME_SIZE {
            return PrepareResult::PrepareStringTooLong;
        }
        if email_full.len() == 0 {
            return PrepareResult::PrepareSyntaxError;
        }
        if email_full.len() > COLUMN_EMAIL_SIZE {
            return PrepareResult::PrepareStringTooLong;
        }
        // the line's closing terminator rides on the last field; drop it
        let email: &[u8] = &email_full[0..email_full.len() - 1];
        stmt.row_to_insert.id = id_num as u32;
        let ru = stmt.row_to_insert.set_username(username);
        proof {
            assert(ru is Ok);
        }
        let re = stmt.row_to_insert.set_email(email);
        proof {
            assert(re is Ok);
        }
        proof {
            assert(spec_space_positions(b@).len() == 3);
            assert(id_part@ =~= spec_insert_id_part(line.spec_bytes()));
        }
        PrepareResult::PrepareSuccess
    }
}

/// The positions of the space separators in a statement line.
pub open spec fn spec_space_positions(s: Seq<u8>) -> Seq<int>
    decreases s.len(),
{
    if s.len() == 0 {
        Seq::empty()
    } else if s.last() == 32 {
        spec_space_positions(s.drop_last()).push(s.len() - 1)
    } else {
        spec_space_positions(s.drop_last())
    }
}

/// The id field of an insert line: the bytes between the first and second
/// space separators.
pub open spec fn spec_insert_id_part(s: Seq<u8>) -> Seq<u8> {
    let sp = spec_space_positions(s);
    if sp.len() == 3 {
        s.subrange(sp[0] + 1, sp[1])
    } else {
        Seq::empty()
    }
}

} // verus!
