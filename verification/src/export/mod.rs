//! Text of the subtitle exports: the visible part of a token, the source
//! line, and chains of note names.

pub mod ass;
pub mod srt;

use vstd::prelude::*;
use crate::models::{note_name, spec_note_name};
use crate::text::{chars_of, join_strings, joined, push_str, string_of_range, strings_view};

verus! {

broadcast use vstd::string::group_string_axioms;

/// The index of the first `|` of `s` from `i` on (`s.len()` if none).
pub open spec fn bar_index(s: Seq<char>, i: int) -> int
    decreases s.len() - i,
{
    if 0 <= i < s.len() && s[i] != '|' {
        bar_index(s, i + 1)
    } else {
        i
    }
}

/// The visible part of a token's text: what comes before its first `|`
/// (the rest holds translation columns).
pub open spec fn spec_visible_text(s: Seq<char>) -> Seq<char> {
    s.take(bar_index(s, 0))
}

pub proof fn lemma_bar_index(s: Seq<char>, i: int)
    requires
        0 <= i <= s.len(),
    ensures
        i <= bar_index(s, i) <= s.len(),
        forall|k: int| i <= k < bar_index(s, i) ==> #[trigger] s[k] != '|',
        bar_index(s, i) < s.len() ==> s[bar_index(s, i)] == '|',
    decreases s.len() - i,
{
    if i < s.len() && s[i] != '|' {
        lemma_bar_index(s, i + 1);
    }
}

/// The visible part of a token's text: the text before its first `|`.
pub fn visible_token_text(text: &str) -> (r: String)
    ensures
        r@ == spec_visible_text(text@),
{
    let chars = chars_of(text);
    proof {
        lemma_bar_index(text@, 0);
    }
    let mut i: usize = 0;
    while i < chars.len() && chars[i] != '|'
        invariant
            chars@ == text@,
            i <= chars@.len(),
            bar_index(text@, i as int) == bar_index(text@, 0),
        decreases chars.len() - i,
    {
        i += 1;
    }
    string_of_range(chars.as_slice(), 0, i)
}

/// The visible texts of tokens `0..k`, one after the other.
pub open spec fn visible_concat(texts: Seq<Seq<char>>, k: int) -> Seq<char>
    decreases k,
{
    if k <= 0 || k > texts.len() {
        Seq::empty()
    } else {
        visible_concat(texts, k - 1) + spec_visible_text(texts[k - 1])
    }
}

/// The source text of a lyric line: its primary text, or, when that is
/// empty, the visible texts of its tokens one after the other.
pub fn source_line_text(primary: &str, token_texts: &[String]) -> (r: String)
    ensures
        r@ == (if primary@.len() > 0 {
            primary@
        } else {
            visible_concat(strings_view(token_texts@), token_texts@.len() as int)
        }),
{
    let ghost ts = strings_view(token_texts@);
    if primary.unicode_len() > 0 {
        let mut r = String::new();
        push_str(&mut r, primary);
        assert(r@ =~= primary@);
        return r;
    }
    let mut r = String::new();
    let mut i: usize = 0;
    while i < token_texts.len()
        invariant
            i <= token_texts@.len(),
            ts == strings_view(token_texts@),
            r@ == visible_concat(ts, i as int),
        decreases token_texts.len() - i,
    {
        let v = visible_token_text(token_texts[i].as_str());
        push_str(&mut r, v.as_str());
        i += 1;
    }
    r
}

/// The names of the notes `ms`, without repeating a name that is the same
/// as the one before it.
pub open spec fn chain_names(ms: Seq<i32>) -> Seq<Seq<char>>
    decreases ms.len(),
{
    if ms.len() == 0 {
        Seq::empty()
    } else {
        let prev = chain_names(ms.drop_last());
        let n = spec_note_name(ms.last() as int);
        if prev.len() > 0 && prev.last() == n {
            prev
        } else {
            prev.push(n)
        }
    }
}

/// The note chain of a display group, such as `D4-C4`: the names of its
/// notes (rounded MIDI pitches), a repeated name once, joined by `-`;
/// `None` when there is no note.
pub fn note_chain(midis: &[i32]) -> (r: Option<String>)
    ensures
        match r {
            Some(s) => chain_names(midis@).len() > 0 && s@ == joined(chain_names(midis@), "-"@),
            None => chain_names(midis@).len() == 0,
        },
{
    let ghost ms = midis@;
    let mut names: Vec<String> = Vec::new();
    let mut i: usize = 0;
    while i < midis.len()
        invariant
            i <= ms.len(),
            ms == midis@,
            strings_view(names@) == chain_names(ms.take(i as int)),
        decreases midis.len() - i,
    {
        proof {
            assert(ms.take(i + 1).drop_last() == ms.take(i as int));
            assert(ms.take(i + 1).last() == ms[i as int]);
        }
        let name = note_name(midis[i]);
        let repeated = if names.len() > 0 {
            let last = &names[names.len() - 1];
            proof {
                assert(strings_view(names@).last() == last@);
            }
            *last == name
        } else {
            false
        };
        if !repeated {
            let ghost before = strings_view(names@);
            names.push(name);
            proof {
                assert(strings_view(names@) =~= before.push(spec_note_name(midis@[i as int] as int)));
            }
        }
        i += 1;
    }
    proof {
        assert(ms.take(i as int) == ms);
    }
    if names.len() == 0 {
        None
    } else {
        Some(join_strings(names.as_slice(), "-"))
    }
}

} // verus!
