//! The pure parts of authentication: the decision of a login, which claims a
//! new token carries, and where the token stands in an `Authorization` header.

use vstd::prelude::*;

use crate::models::User;

verus! {

/// The claims a token carries: the user's id as text, and when it expires,
/// in seconds since the Unix epoch.
pub struct Claims {
    pub sub: String,
    pub exp: i64,
}

/// The user a request was authenticated as.
pub struct Auth {
    pub id: i32,
}

/// How long a token stays valid, in seconds.
pub const TOKEN_LIFETIME_SECS: i64 = 3600;

/// The claims of a token issued at `now` for `user_id`: it expires one hour later.
pub fn token_claims(user_id: String, now: i64) -> (r: Claims)
    requires
        now <= i64::MAX - TOKEN_LIFETIME_SECS,
    ensures
        r.sub@ == user_id@,
        r.exp == now + TOKEN_LIFETIME_SECS,
{
    Claims { sub: user_id, exp: now + TOKEN_LIFETIME_SECS }
}

/// No character of `s` in `[from, to)` is a space.
pub open spec fn no_space_in(s: Seq<char>, from: int, to: int) -> bool {
    forall|k: int| from <= k < to ==> #[trigger] s[k] != ' '
}

/// `t` is the second field of `h` split at single spaces: the text after the
/// first space, up to the next space or the end.
pub open spec fn is_second_field(h: Seq<char>, t: Seq<char>) -> bool {
    exists|i: int, j: int|
        0 <= i < j <= h.len() && h[i] == ' ' && no_space_in(h, 0, i) && no_space_in(h, i + 1, j)
            && (j == h.len() || h[j] == ' ') && t == #[trigger] h.subrange(i + 1, j)
}

/// The token of an `Authorization` header value such as `Bearer <token>`: the
/// second field when the value is split at single spaces; `None` where the
/// value holds no space.
pub fn bearer_token(header: &str) -> (r: Option<String>)
    ensures
        r is None <==> no_space_in(header@, 0, header@.len() as int),
        r matches Some(t) ==> is_second_field(header@, t@),
{
    let n = header.unicode_len();
    let mut i: usize = 0;
    while i < n && header.get_char(i) != ' '
        invariant
            n == header@.len(),
            i <= n,
            no_space_in(header@, 0, i as int),
        decreases n - i,
    {
        i += 1;
    }
    if i == n {
        return None;
    }
    let mut j: usize = i + 1;
    while j < n && header.get_char(j) != ' '
        invariant
            n == header@.len(),
            i < j <= n,
            no_space_in(header@, i + 1, j as int),
        decreases n - j,
    {
        j += 1;
    }
    let field = header.substring_char(i + 1, j);
    let t = field.to_owned();
    assert(is_second_field(header@, t@)) by {
        assert(t@ == header@.subrange(i + 1, j as int));
    }
    Some(t)
}

/// An ASCII decimal digit.
pub open spec fn is_digit(c: char) -> bool {
    '0' <= c && c <= '9'
}

/// The value of a string of decimal digits, most significant first.
pub open spec fn digits_value(s: Seq<char>) -> int
    decreases s.len(),
{
    if s.len() == 0 {
        0
    } else {
        digits_value(s.drop_last()) * 10 + (s.last() as u32 - '0' as u32)
    }
}

/// Every character of `s` is a decimal digit.
pub open spec fn all_digits(s: Seq<char>) -> bool {
    forall|i: int| 0 <= i < s.len() ==> is_digit(#[trigger] s[i])
}

/// `s` without a leading `+` or `-`.
pub open spec fn unsigned_part(s: Seq<char>) -> Seq<char> {
    if s.len() > 0 && (s[0] == '-' || s[0] == '+') {
        s.subrange(1, s.len() as int)
    } else {
        s
    }
}

/// The integer written in `s` as an optional `+` or `-` followed by at least
/// one decimal digit; `None` where `s` has another form.
pub open spec fn signed_decimal(s: Seq<char>) -> Option<int> {
    let body = unsigned_part(s);
    if body.len() > 0 && all_digits(body) {
        Some(if s[0] == '-' { -digits_value(body) } else { digits_value(body) })
    } else {
        None
    }
}

/// The user id a token's subject names: the subject read as a decimal `i32`.
pub open spec fn subject_user_id(sub: Seq<char>) -> Option<i32> {
    match signed_decimal(sub) {
        Some(v) => if i32::MIN <= v <= i32::MAX { Some(v as i32) } else { None },
        None => None,
    }
}

proof fn lemma_digits_value_nonneg(s: Seq<char>)
    requires
        all_digits(s),
    ensures
        digits_value(s) >= 0,
    decreases s.len(),
{
    if s.len() > 0 {
        lemma_digits_value_nonneg(s.drop_last());
    }
}

/// Past this, a digit string's value is out of every `i32`'s reach.
const DIGITS_CAP: u64 = 2147483649;

/// Reads a token's subject as a user id, as `str::parse::<i32>` does: an
/// optional sign, then decimal digits, in range.
pub fn user_id_from_subject(sub: &str) -> (r: Option<i32>)
    ensures
        r == subject_user_id(sub@),
{
    let n = sub.unicode_len();
    if n == 0 {
        return None;
    }
    let first = sub.get_char(0);
    let negative = first == '-';
    let start: usize = if first == '-' || first == '+' { 1 } else { 0 };
    let ghost body = sub@.subrange(start as int, n as int);
    assert(body == unsigned_part(sub@));
    if start == n {
        return None;
    }
    let mut acc: u64 = 0;
    let mut k: usize = start;
    while k < n
        invariant
            n == sub@.len(),
            start <= k <= n,
            body == sub@.subrange(start as int, n as int),
            body == unsigned_part(sub@),
            forall|i: int| 0 <= i < k - start ==> is_digit(#[trigger] body[i]),
            acc <= DIGITS_CAP,
            acc as int == if digits_value(body.subrange(0, k - start)) < DIGITS_CAP {
                digits_value(body.subrange(0, k - start))
            } else {
                DIGITS_CAP as int
            },
        decreases n - k,
    {
        let c = sub.get_char(k);
        if !('0' <= c && c <= '9') {
            assert(body[k - start] == c);
            assert(!is_digit(body[k - start]));
            assert(!all_digits(body));
            assert(signed_decimal(sub@) is None);
            return None;
        }
        let ghost prefix = body.subrange(0, k - start);
        let ghost next = body.subrange(0, k - start + 1);
        proof {
            assert(next.drop_last() =~= prefix);
            assert(forall|i: int| 0 <= i < prefix.len() ==> #[trigger] prefix[i] == body[i]);
            lemma_digits_value_nonneg(prefix);
        }
        let d = (c as u32 - '0' as u32) as u64;
        let grown = acc * 10 + d;
        acc = if grown < DIGITS_CAP { grown } else { DIGITS_CAP };
        k += 1;
    }
    assert(body.subrange(0, n - start) =~= body);
    proof {
        lemma_digits_value_nonneg(body);
    }
    if negative {
        if acc <= 2147483648 {
            Some((0 - (acc as i64)) as i32)
        } else {
            None
        }
    } else if acc <= 2147483647 {
        Some(acc as i32)
    } else {
        None
    }
}

/// bcrypt's answer to whether `password` matches `hash`: `None` where `hash`
/// is not a bcrypt hash.
pub uninterp spec fn bcrypt_verdict(password: Seq<char>, hash: Seq<char>) -> Option<bool>;

/// Relies on `bcrypt::verify`: it hashes `password` with the cost and salt
/// that `hash` records and compares the digests; it fails on a string that is
/// not a bcrypt hash. The answer depends on the two strings alone.
#[verifier::external_body]
fn verify_password(password: &str, hash: &str) -> (r: Option<bool>)
    ensures
        r == bcrypt_verdict(password@, hash@),
{
    bcrypt::verify(password, hash).ok()
}

/// What the lookup of a login's user name found.
pub enum UserLookup {
    Found(User),
    Missing,
    Failed,
}

/// How a login ends.
#[derive(Debug, PartialEq, Eq, Clone, Copy)]
pub enum LoginOutcome {
    /// The password matched: a token is issued for this user id.
    Authorized(i32),
    /// No such user, or the password did not match.
    Unauthorized,
    /// The lookup failed, or the stored hash is not a bcrypt hash.
    Failed,
}

/// The outcome for a found user, from bcrypt's verdict on the password.
pub open spec fn outcome_of_verdict(user_id: i32, verdict: Option<bool>) -> LoginOutcome {
    match verdict {
        Some(true) => LoginOutcome::Authorized(user_id),
        Some(false) => LoginOutcome::Unauthorized,
        None => LoginOutcome::Failed,
    }
}

/// The outcome of a login whose user was found, given bcrypt's verdict on
/// the password against the user's stored hash.
pub fn decide_login(user_id: i32, verdict: Option<bool>) -> (r: LoginOutcome)
    ensures
        r == outcome_of_verdict(user_id, verdict),
{
    match verdict {
        Some(true) => LoginOutcome::Authorized(user_id),
        Some(false) => LoginOutcome::Unauthorized,
        None => LoginOutcome::Failed,
    }
}

/// Decides a login: a found user whose stored hash matches `password` is
/// authorized; a missing user or a wrong password is not.
pub fn login_outcome(lookup: &UserLookup, password: &str) -> (r: LoginOutcome)
    ensures
        r == match lookup {
            UserLookup::Found(u) => outcome_of_verdict(u.id, bcrypt_verdict(password@, u.password@)),
            UserLookup::Missing => LoginOutcome::Unauthorized,
            UserLookup::Failed => LoginOutcome::Failed,
        },
{
    match lookup {
        UserLookup::Found(u) => {
            let verdict = verify_password(password, u.password.as_str());
            decide_login(u.id, verdict)
        },
        UserLookup::Missing => LoginOutcome::Unauthorized,
        UserLookup::Failed => LoginOutcome::Failed,
    }
}

} // verus!
