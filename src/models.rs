//! The catalogue's records and request bodies.

use vstd::prelude::*;

verus! {

/// A book of the catalogue.
pub struct Book {
    pub id: i32,
    pub title: String,
    pub author: String,
    pub image_url: String,
}

/// The body of a request that creates or updates a book.
pub struct CreateBookRequest {
    pub title: String,
    pub author: String,
}

/// A registered user; `password` holds the password's hash.
pub struct User {
    pub id: i32,
    pub username: String,
    pub password: String,
    pub full_name: String,
}

/// The body of a registration request.
pub struct CreateUserRequest {
    pub username: String,
    pub password: String,
    pub full_name: String,
}

/// The fields of a user as a response may carry them.
pub struct CreateUserResponse {
    pub username: Option<String>,
    pub password: Option<String>,
    pub full_name: Option<String>,
}

/// The body of a login request.
pub struct LoginRequest {
    pub username: String,
    pub password: String,
}

/// The fewest characters a title or an author may have.
pub const MIN_FIELD_CHARS: u64 = 1;

/// The most characters a title or an author may have.
pub const MAX_FIELD_CHARS: u64 = 255;

/// The message for a title outside the allowed length.
pub const TITLE_LENGTH_ERROR: &'static str = "title: Title must be between 1 and 255 characters";

/// The message for an author outside the allowed length.
pub const AUTHOR_LENGTH_ERROR: &'static str = "author: Author must be between 1 and 255 characters";

/// A field has an allowed number of characters.
pub open spec fn field_length_ok(s: Seq<char>) -> bool {
    MIN_FIELD_CHARS <= s.len() <= MAX_FIELD_CHARS
}

/// Relies on validator's `ValidateLength::validate_length` for `String`, which
/// counts the characters and checks the count against both bounds, inclusive.
#[verifier::external_body]
fn length_within(s: &String, min: u64, max: u64) -> (r: bool)
    ensures
        r == (min <= s@.len() && s@.len() <= max),
{
    validator::ValidateLength::<u64>::validate_length(s, Some(min), Some(max), None)
}

impl CreateBookRequest {
    /// Checks that the title and the author each have 1 to 255 characters.
    /// On failure, one message per failing field: the title's first.
    pub fn validate(&self) -> (r: Result<(), Vec<String>>)
        ensures
            r is Ok <==> field_length_ok(self.title@) && field_length_ok(self.author@),
            r matches Err(msgs) ==> msgs@.map_values(|m: String| m@) == (if field_length_ok(
                self.title@,
            ) {
                Seq::<Seq<char>>::empty()
            } else {
                seq![TITLE_LENGTH_ERROR@]
            }) + (if field_length_ok(self.author@) {
                Seq::<Seq<char>>::empty()
            } else {
                seq![AUTHOR_LENGTH_ERROR@]
            }),
    {
        let mut msgs: Vec<String> = Vec::new();
        let title_ok = length_within(&self.title, MIN_FIELD_CHARS, MAX_FIELD_CHARS);
        let author_ok = length_within(&self.author, MIN_FIELD_CHARS, MAX_FIELD_CHARS);
        if !title_ok {
            msgs.push(TITLE_LENGTH_ERROR.to_owned());
        }
        if !author_ok {
            msgs.push(AUTHOR_LENGTH_ERROR.to_owned());
        }
        if msgs.len() == 0 {
            Ok(())
        } else {
            assert(msgs@.map_values(|m: String| m@) =~= (if title_ok {
                Seq::<Seq<char>>::empty()
            } else {
                seq![TITLE_LENGTH_ERROR@]
            }) + (if author_ok {
                Seq::<Seq<char>>::empty()
            } else {
                seq![AUTHOR_LENGTH_ERROR@]
            }));
            Err(msgs)
        }
    }
}

} // verus!
