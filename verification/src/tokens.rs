//! The token filter: drops the lone-space token, non-empty tokens made of
//! punctuation alone, and stop words, passing everything else (the empty
//! token included) through unchanged and in order. The stop-word list is injected, so the filter itself is pure; the
//! configured list is the Russian one of the stop-words crate.
use vstd::prelude::*;

verus! {

/// The characters of the configured punctuation set: every ASCII
/// punctuation character, along with the newline and space that pad it.
pub open spec fn is_punct(c: char) -> bool {
    ||| c == '\n'
    ||| c == ' '
    ||| 0x21 <= c as u32 <= 0x2f
    ||| 0x3a <= c as u32 <= 0x40
    ||| 0x5b <= c as u32 <= 0x60
    ||| 0x7b <= c as u32 <= 0x7e
}

/// Executable form of `is_punct`.
pub fn is_punct_char(c: char) -> (r: bool)
    ensures
        r == is_punct(c),
{
    let u = c as u32;
    c == '\n' || c == ' ' || (0x21 <= u && u <= 0x2f) || (0x3a <= u && u <= 0x40) || (0x5b <= u
        && u <= 0x60) || (0x7b <= u && u <= 0x7e)
}

/// A token passes the filter: it is not the single-space token, is not a
/// non-empty token consisting entirely of punctuation characters (the
/// empty token passes), and is not a stop word.
pub open spec fn spec_valid_token(t: Seq<char>, stop: Seq<Seq<char>>) -> bool {
    &&& t != seq![' ']
    &&& !(t.len() > 0 && (forall|i: int| 0 <= i < t.len() ==> is_punct(#[trigger] t[i])))
    &&& !stop.contains(t)
}

/// Decides whether one token survives the filter.
pub fn valid_token(token: &String, stop_words: &Vec<String>) -> (r: bool)
    ensures
        r == spec_valid_token(token@, stop_words.deep_view()),
{
    let n = token.as_str().unicode_len();
    if n == 1 && token.as_str().get_char(0) == ' ' {
        proof {
            assert(token@ =~= seq![' ']);
        }
        return false;
    }
    proof {
        assert(token@ != seq![' ']);
    }
    let mut all_punct = true;
    let mut i: usize = 0;
    while i < n
        invariant
            i <= n,
            n == token@.len(),
            all_punct == forall|j: int| 0 <= j < i ==> is_punct(#[trigger] token@[j]),
        decreases n - i,
    {
        if !is_punct_char(token.as_str().get_char(i)) {
            all_punct = false;
        } else {
            proof {
                if all_punct {
                    assert(forall|j: int| 0 <= j < i + 1 ==> is_punct(#[trigger] token@[j]));
                }
            }
        }
        i += 1;
    }
    if n > 0 && all_punct {
        return false;
    }
    let mut j: usize = 0;
    while j < stop_words.len()
        invariant
            j <= stop_words.len(),
            forall|k: int| 0 <= k < j ==> stop_words.deep_view()[k] != token@,
        decreases stop_words.len() - j,
    {
        if stop_words[j] == *token {
            proof {
                assert(stop_words.deep_view()[j as int] == token@);
            }
            return false;
        }
        j += 1;
    }
    proof {
        assert(!stop_words.deep_view().contains(token@));
    }
    true
}

/// The filtered token stream: order kept, survivors unchanged.
pub open spec fn filtered_tokens(ts: Seq<Seq<char>>, stop: Seq<Seq<char>>) -> Seq<Seq<char>>
    decreases ts.len(),
{
    if ts.len() == 0 {
        Seq::empty()
    } else if spec_valid_token(ts.last(), stop) {
        filtered_tokens(ts.drop_last(), stop).push(ts.last())
    } else {
        filtered_tokens(ts.drop_last(), stop)
    }
}

/// Applies the filter to a token stream.
pub fn filter_tokens(tokens: &Vec<String>, stop_words: &Vec<String>) -> (r: Vec<String>)
    ensures
        r.deep_view() == filtered_tokens(tokens.deep_view(), stop_words.deep_view()),
{
    let ghost ts = tokens.deep_view();
    let ghost stop = stop_words.deep_view();
    let mut r: Vec<String> = Vec::new();
    let mut i: usize = 0;
    proof {
        assert(ts.take(0) =~= Seq::<Seq<char>>::empty());
        assert(r.deep_view() =~= Seq::<Seq<char>>::empty());
    }
    while i < tokens.len()
        invariant
            i <= tokens.len(),
            ts == tokens.deep_view(),
            stop == stop_words.deep_view(),
            r.deep_view() == filtered_tokens(ts.take(i as int), stop),
        decreases tokens.len() - i,
    {
        proof {
            assert(ts.take(i + 1).drop_last() =~= ts.take(i as int));
            assert(ts.take(i + 1).last() == ts[i as int]);
        }
        if valid_token(&tokens[i], stop_words) {
            let ghost r0 = r.deep_view();
            let t = tokens[i].clone();
            r.push(t);
            proof {
                assert(r.deep_view() =~= r0.push(ts[i as int]));
            }
        }
        i += 1;
    }
    proof {
        assert(ts.take(tokens.len() as int) =~= ts);
    }
    r
}

/// The stop-word list that the stop-words crate ships for a language code:
/// fixed data compiled into that crate, the same on every run.
pub uninterp spec fn stop_list(lang: Seq<char>) -> Seq<Seq<char>>;

/// Relies on stop_words::lookup: for a known language code it returns the
/// word list compiled into that crate; it does not panic. The crate's
/// default feature set compiles the "ru" list in, so the fallback arm is
/// never taken.
#[verifier::external_body]
fn fetch_stop_words() -> (r: Vec<String>)
    ensures
        r.deep_view() == stop_list("ru"@),
{
    match stop_words::lookup("ru") {
        Option::Some(words) => words.iter().map(|w| w.to_string()).collect(),
        Option::None => Vec::new(),
    }
}

/// The stop-word list the pipeline is configured with: Russian.
pub fn configured_stop_words() -> (r: Vec<String>)
    ensures
        r.deep_view() == stop_list("ru"@),
{
    fetch_stop_words()
}

} // verus!
