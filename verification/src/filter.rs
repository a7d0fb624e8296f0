//! The log filter of `tracing_subscriber`, kept together with the
//! directives that it was read from.
//!
//! Nothing can be seen inside the filter itself. So a `Filter` carries the
//! text beside it, and only the reader below can make one: whoever holds a
//! `Filter` holds the filter that `tracing_subscriber` read from exactly
//! that text.

use vstd::prelude::*;
use vstd::string::StrSliceExecFns;
use vstd::utf8::is_ascii_chars;
use tracing_subscriber::filter::ParseError;
use tracing_subscriber::EnvFilter;

verus! {

/// The filter type of `tracing_subscriber`. Nothing is known of its inside.
#[verifier::external_type_specification]
#[verifier::external_body]
pub struct ExEnvFilter(tracing_subscriber::EnvFilter);

/// The error that `tracing_subscriber` gives for directives that it cannot
/// read. Nothing is known of its inside.
#[verifier::external_type_specification]
#[verifier::external_body]
pub struct ExParseError(tracing_subscriber::filter::ParseError);

/// Whether `EnvFilter::try_new` reads the given directives as a filter.
pub uninterp spec fn directives_accepted(directives: Seq<char>) -> bool;

/// Whether `char::is_whitespace` holds of the character.
pub uninterp spec fn white_space(c: char) -> bool;

/// Calls `char::is_whitespace` of the standard library, which tells
/// whether a character has the Unicode property White_Space. The outcome
/// is named `white_space`. It is the property by which text is trimmed.
#[verifier::external_body]
fn is_white_space(c: char) -> (r: bool)
    ensures
        r == white_space(c),
{
    c.is_whitespace()
}

/// The pieces of `text` between its commas, in order. Text without a comma
/// is one piece, and so is empty text.
pub open spec fn split_at_commas(text: Seq<char>) -> Seq<Seq<char>>
    decreases text.len(),
{
    if text.len() == 0 {
        seq![Seq::empty()]
    } else {
        let before = split_at_commas(text.drop_last());
        if text.last() == ',' {
            before.push(Seq::empty())
        } else {
            before.update(before.len() - 1, before.last().push(text.last()))
        }
    }
}

/// The reader can take the piece: it does not both begin with white space
/// and hold a character outside ASCII. The reader takes positions from a
/// trimmed copy of a piece and cuts the untrimmed piece at them. Without
/// white space in front both begin alike, and in ASCII every position is a
/// place to cut; a piece with neither can be cut inside a character.
pub open spec fn piece_readable(piece: Seq<char>) -> bool {
    !(piece.len() > 0 && white_space(piece[0]) && !is_ascii_chars(piece))
}

/// The reader can take every piece of the directives.
pub open spec fn readable(directives: Seq<char>) -> bool {
    forall|k: int|
        0 <= k < split_at_commas(directives).len() ==> piece_readable(#[trigger] split_at_commas(directives)[k])
}

/// There is always a piece.
pub proof fn lemma_split_not_empty(text: Seq<char>)
    ensures
        split_at_commas(text).len() > 0,
    decreases text.len(),
{
    if text.len() > 0 {
        lemma_split_not_empty(text.drop_last());
    }
}

/// A piece with one more character is ASCII when the piece and the
/// character are.
proof fn lemma_ascii_push(piece: Seq<char>, c: char)
    ensures
        is_ascii_chars(piece.push(c)) == (is_ascii_chars(piece) && c <= '\u{7f}'),
{
    let longer = piece.push(c);
    if is_ascii_chars(longer) {
        assert(longer[piece.len() as int] == c);
        assert forall|i: int| 0 <= i < piece.len() implies '\0' <= #[trigger] piece[i] <= '\u{7f}' by {
            assert(longer[i] == piece[i]);
        }
    }
    if is_ascii_chars(piece) && c <= '\u{7f}' {
        assert forall|i: int| 0 <= i < longer.len() implies '\0' <= #[trigger] longer[i] <= '\u{7f}' by {
            if i < piece.len() {
                assert(longer[i] == piece[i]);
            }
        }
    }
}

/// Whether the reader can take every piece of the directives.
pub fn is_readable(directives: &str) -> (r: bool)
    ensures
        r == readable(directives@),
{
    let n = directives.unicode_len();
    let mut closed_ok = true;
    let mut open_empty = true;
    let mut open_spaced = false;
    let mut open_wide = false;
    let mut i: usize = 0;
    proof {
        assert(directives@.subrange(0, 0) =~= Seq::<char>::empty());
    }
    while i < n
        invariant
            i <= n,
            n == directives@.len(),
            ({
                let pieces = split_at_commas(directives@.subrange(0, i as int));
                &&& pieces.len() > 0
                &&& closed_ok == (forall|k: int| 0 <= k < pieces.len() - 1 ==> piece_readable(#[trigger] pieces[k]))
                &&& open_empty == (pieces.last().len() == 0)
                &&& open_spaced == (pieces.last().len() > 0 && white_space(pieces.last()[0]))
                &&& open_wide == !is_ascii_chars(pieces.last())
            }),
        decreases n - i,
    {
        let c = directives.get_char(i);
        let ghost before = split_at_commas(directives@.subrange(0, i as int));
        let ghost after = split_at_commas(directives@.subrange(0, i + 1));
        proof {
            let longer = directives@.subrange(0, i + 1);
            assert(longer.drop_last() =~= directives@.subrange(0, i as int));
            assert(longer.last() == c);
            lemma_ascii_push(before.last(), c);
        }
        if c == ',' {
            assert(after == before.push(Seq::<char>::empty()));
            if open_spaced && open_wide {
                closed_ok = false;
            }
            open_empty = true;
            open_spaced = false;
            open_wide = false;
            proof {
                assert(forall|k: int| 0 <= k < before.len() ==> after[k] == before[k]);
            }
        } else {
            assert(after == before.update(before.len() - 1, before.last().push(c)));
            if open_empty {
                open_spaced = is_white_space(c);
                open_empty = false;
            }
            if c > '\u{7f}' {
                open_wide = true;
            }
            proof {
                assert(forall|k: int| 0 <= k < before.len() - 1 ==> after[k] == before[k]);
                assert(after.last() == before.last().push(c));
                assert(after.last()[0] == if before.last().len() == 0 {
                    c
                } else {
                    before.last()[0]
                });
            }
        }
        i += 1;
    }
    proof {
        assert(directives@.subrange(0, n as int) =~= directives@);
    }
    closed_ok && !(open_spaced && open_wide)
}

/// A log filter, with the directives that it was read from.
#[derive(Debug)]
pub struct Filter {
    directives: String,
    inner: EnvFilter,
}

impl View for Filter {
    type V = Seq<char>;

    /// The directives that the filter was read from.
    closed spec fn view(&self) -> Seq<char> {
        self.directives@
    }
}

/// Calls `EnvFilter::try_new` of `tracing_subscriber`, which splits the
/// directives at commas and reads each of them, and keeps the filter that
/// comes back together with the text. Whether the call succeeds depends on
/// the text alone; that outcome is named `directives_accepted`. Nothing is
/// claimed of the inside of the filter.
///
/// Every piece of the text has to be `piece_readable`: on a piece that
/// begins with white space and holds a character of several bytes the
/// reader can fail. For directives that ask for levels which were compiled
/// out, the call writes a warning to standard error.
#[verifier::external_body]
pub(crate) fn try_new_filter(directives: String) -> (r: Result<Filter, ParseError>)
    requires
        readable(directives@),
    ensures
        r is Ok == directives_accepted(directives@),
        r matches Ok(f) ==> f@ == directives@,
{
    match EnvFilter::try_new(&directives) {
        Ok(inner) => Ok(Filter { directives, inner }),
        Err(e) => Err(e),
    }
}

impl Filter {
    /// The directives that the filter was read from.
    pub fn directives(&self) -> (r: &str)
        ensures
            r@ == self@,
    {
        self.directives.as_str()
    }

    /// The filter itself, to hand to a subscriber.
    pub fn into_inner(self) -> EnvFilter {
        self.inner
    }
}

} // verus!
