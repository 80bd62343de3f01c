//! The lines that tell the user how a command ended.

use vstd::prelude::*;
use vstd::string::*;

use crate::error::KpvError;
use crate::listing::texts;

verus! {

/// The line after a `save` under `key`.
pub open spec fn saved_text(key: Seq<char>) -> Seq<char> {
    "✅ Saved: ./.env -> '"@ + key + "'"@
}

/// The line after a `link` of `key`.
pub open spec fn linked_text(key: Seq<char>) -> Seq<char> {
    "🔗 Linked: '"@ + key + "' -> ./.env"@
}

/// The line after a `delete` of `key`.
pub open spec fn deleted_text(key: Seq<char>) -> Seq<char> {
    "🗑️  Deleted: '"@ + key + "'"@
}

/// The line for a command that failed.
pub open spec fn error_text(error: KpvError) -> Seq<char> {
    "Error: "@ + error.message_text()
}

/// The line that shows one key of a listing.
pub open spec fn key_text_line(key: Seq<char>) -> Seq<char> {
    "- "@ + key
}

/// The lines of a listing: a heading, then one line for each key, or a
/// line that says that there is none.
pub open spec fn listing_text(keys: Seq<Seq<char>>) -> Seq<Seq<char>> {
    if keys.len() == 0 {
        seq!["📦 Saved keys:"@, "(none)"@]
    } else {
        seq!["📦 Saved keys:"@] + Seq::new(keys.len(), |i: int| key_text_line(keys[i]))
    }
}

/// The line after a `save` under `key`.
pub fn saved_line(key: &str) -> (line: String)
    ensures
        line@ == saved_text(key@),
{
    let mut line = String::from_str("✅ Saved: ./.env -> '");
    line.append(key);
    line.append("'");
    line
}

/// The line after a `link` of `key`.
pub fn linked_line(key: &str) -> (line: String)
    ensures
        line@ == linked_text(key@),
{
    let mut line = String::from_str("🔗 Linked: '");
    line.append(key);
    line.append("' -> ./.env");
    line
}

/// The line after a `delete` of `key`.
pub fn deleted_line(key: &str) -> (line: String)
    ensures
        line@ == deleted_text(key@),
{
    let mut line = String::from_str("🗑️  Deleted: '");
    line.append(key);
    line.append("'");
    line
}

/// The line for a command that failed.
pub fn error_line(error: KpvError) -> (line: String)
    ensures
        line@ == error_text(error),
{
    let mut line = String::from_str("Error: ");
    let message = error.message();
    line.append(message.as_str());
    line
}

/// The lines of a listing.
pub fn listing_lines(keys: &Vec<String>) -> (lines: Vec<String>)
    ensures
        texts(lines@) == listing_text(texts(keys@)),
{
    let mut lines: Vec<String> = Vec::new();
    lines.push(String::from_str("📦 Saved keys:"));
    if keys.len() == 0 {
        lines.push(String::from_str("(none)"));
        proof {
            assert(texts(lines@) =~= listing_text(texts(keys@)));
        }
        return lines;
    }
    let mut i: usize = 0;
    while i < keys.len()
        invariant
            i <= keys@.len(),
            lines@.len() == i + 1,
            lines@[0]@ == "📦 Saved keys:"@,
            forall|k: int| 0 <= k < i ==> (#[trigger] lines@[k + 1])@ == key_text_line(keys@[k]@),
        decreases keys@.len() - i,
    {
        let mut line = String::from_str("- ");
        line.append(keys[i].as_str());
        lines.push(line);
        i += 1;
    }
    proof {
        let want = listing_text(texts(keys@));
        assert(want.len() == lines@.len());
        assert forall|j: int| 0 <= j < lines@.len() implies texts(lines@)[j] == want[j] by {
            if j > 0 {
                assert(lines@[(j - 1) + 1]@ == key_text_line(keys@[j - 1]@));
            }
        }
        assert(texts(lines@) =~= want);
    }
    lines
}

} // verus!
