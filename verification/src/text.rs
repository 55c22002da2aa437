//! Normal forms, search terms, identifiers and summaries of free text.
use vstd::prelude::*;
use vstd::utf8::{char_is_scalar, encode_scalar, encode_utf8};

use crate::chars::{
    ascii_alphanumeric, ascii_digit, ascii_lower, chars_of, hex, hex_text, is_ascii_alphanumeric,
    is_ascii_digit, is_text_less, is_white_space, join, join_texts, lemma_text_less_irreflexive,
    lemma_text_less_total, lemma_text_less_transitive, lemma_trim_end_shape, lemma_trim_start_shape,
    list_contains, lower_char, same_text, text_less, text_of, texts, trim, trim_end, trim_start,
    trimmed, white_space, word_scan, words, words_of,
};
use crate::digits::{fraction_in_24_digits, in_24_digits, nearest, nearest_whole, DIGITS_24, ONE};
use crate::order::{ranked, sort_ranked, views, Ranking};

verus! {

/// The present time in milliseconds since the Unix epoch, as `chrono::Utc::now` reads it.
/// Nothing is claimed of the reading.
#[verifier::external_body]
pub(crate) fn now_unix_ms() -> i64 {
    chrono::Utc::now().timestamp_millis()
}

// ---------------------------------------------------------------------------
// Normal form
// ---------------------------------------------------------------------------
/// A character that a normal form keeps.
pub open spec fn term_char(c: char) -> bool {
    ascii_alphanumeric(c) || c == '_' || c == '-' || c == '.' || c == '/'
}

/// Kept characters in lower case; each run of others after a kept one becomes one space.
pub open spec fn squeeze(s: Seq<char>) -> Seq<char>
    decreases s.len(),
{
    if s.len() == 0 {
        Seq::empty()
    } else {
        let front = squeeze(s.drop_last());
        if term_char(s.last()) {
            front.push(ascii_lower(s.last()))
        } else if front.len() > 0 && front.last() != ' ' {
            front.push(' ')
        } else {
            front
        }
    }
}

/// The normal form of a text: what it keeps, in lower case, with single spaces between.
pub open spec fn normal_form(s: Seq<char>) -> Seq<char> {
    trim(squeeze(s))
}

pub fn normalize_text(text: &str) -> (r: String)
    ensures
        r@ == normal_form(text@),
{
    let cs = chars_of(text);
    let mut out = String::new();
    let mut last_space = true;
    let mut i: usize = 0;
    proof {
        assert(cs@.take(0) =~= Seq::empty());
        assert(out@ =~= Seq::empty());
    }
    while i < cs.len()
        invariant
            i <= cs@.len(),
            cs@ == text@,
            out@ == squeeze(cs@.take(i as int)),
            last_space == (out@.len() == 0 || out@.last() == ' '),
        decreases cs.len() - i,
    {
        let c = cs[i];
        proof {
            assert(cs@.take(i as int + 1).drop_last() =~= cs@.take(i as int));
            assert(cs@.take(i as int + 1).last() == c);
        }
        if is_ascii_alphanumeric(c) || c == '_' || c == '-' || c == '.' || c == '/' {
            out.push(lower_char(c));
            last_space = false;
        } else if !last_space {
            out.push(' ');
            last_space = true;
        }
        i += 1;
    }
    proof {
        assert(cs@.take(i as int) =~= text@);
    }
    trimmed(out.as_str())
}

// ---------------------------------------------------------------------------
// Terms
// ---------------------------------------------------------------------------
/// A word too common to search by.
pub open spec fn stop_word(t: Seq<char>) -> bool {
    ||| t == "a"@
    ||| t == "about"@
    ||| t == "after"@
    ||| t == "all"@
    ||| t == "also"@
    ||| t == "an"@
    ||| t == "and"@
    ||| t == "are"@
    ||| t == "as"@
    ||| t == "at"@
    ||| t == "be"@
    ||| t == "by"@
    ||| t == "can"@
    ||| t == "for"@
    ||| t == "from"@
    ||| t == "had"@
    ||| t == "has"@
    ||| t == "have"@
    ||| t == "if"@
    ||| t == "in"@
    ||| t == "into"@
    ||| t == "is"@
    ||| t == "it"@
    ||| t == "its"@
    ||| t == "of"@
    ||| t == "on"@
    ||| t == "or"@
    ||| t == "our"@
    ||| t == "should"@
    ||| t == "so"@
    ||| t == "that"@
    ||| t == "the"@
    ||| t == "their"@
    ||| t == "then"@
    ||| t == "there"@
    ||| t == "this"@
    ||| t == "to"@
    ||| t == "use"@
    ||| t == "was"@
    ||| t == "we"@
    ||| t == "when"@
    ||| t == "where"@
    ||| t == "with"@
    ||| t == "without"@
    ||| t == "you"@
    ||| t == "your"@
}

fn is_stop_word(t: &str) -> (r: bool)
    ensures
        r == stop_word(t@),
{
    same_text(t, "a") || same_text(t, "about") || same_text(t, "after") || same_text(t, "all")
        || same_text(t, "also") || same_text(t, "an") || same_text(t, "and") || same_text(t, "are")
        || same_text(t, "as") || same_text(t, "at") || same_text(t, "be") || same_text(t, "by")
        || same_text(t, "can") || same_text(t, "for") || same_text(t, "from") || same_text(t, "had")
        || same_text(t, "has") || same_text(t, "have") || same_text(t, "if") || same_text(t, "in")
        || same_text(t, "into") || same_text(t, "is") || same_text(t, "it") || same_text(t, "its")
        || same_text(t, "of") || same_text(t, "on") || same_text(t, "or") || same_text(t, "our")
        || same_text(t, "should") || same_text(t, "so") || same_text(t, "that") || same_text(
        t,
        "the",
    ) || same_text(t, "their") || same_text(t, "then") || same_text(t, "there") || same_text(
        t,
        "this",
    ) || same_text(t, "to") || same_text(t, "use") || same_text(t, "was") || same_text(t, "we")
        || same_text(t, "when") || same_text(t, "where") || same_text(t, "with") || same_text(
        t,
        "without",
    ) || same_text(t, "you") || same_text(t, "your")
}

/// A mark that does not belong to a term when it stands at an end of it.
pub open spec fn edge_mark(c: char) -> bool {
    c == '.' || c == '-' || c == '/'
}

pub open spec fn strip_start(s: Seq<char>) -> Seq<char>
    decreases s.len(),
{
    if s.len() > 0 && edge_mark(s[0]) {
        strip_start(s.skip(1))
    } else {
        s
    }
}

pub open spec fn strip_end(s: Seq<char>) -> Seq<char>
    decreases s.len(),
{
    if s.len() > 0 && edge_mark(s.last()) {
        strip_end(s.drop_last())
    } else {
        s
    }
}

/// A word without the marks at its two ends.
pub open spec fn strip_marks(s: Seq<char>) -> Seq<char> {
    strip_end(strip_start(s))
}

fn stripped(s: &str) -> (r: String)
    ensures
        r@ == strip_marks(s@),
{
    let cs = chars_of(s);
    let n: usize = cs.len();
    let mut start: usize = 0;
    proof {
        assert(cs@.skip(0) =~= cs@);
    }
    while start < n && (cs[start] == '.' || cs[start] == '-' || cs[start] == '/')
        invariant
            start <= n == cs@.len(),
            strip_start(cs@.skip(start as int)) == strip_start(cs@),
        decreases n - start,
    {
        proof {
            assert(cs@.skip(start as int).skip(1) =~= cs@.skip(start as int + 1));
        }
        start += 1;
    }
    let ghost body = cs@.skip(start as int);
    let mut end: usize = n;
    proof {
        assert(strip_start(cs@) == body);
        assert(body.take(n - start) =~= body);
    }
    while end > start && (cs[end - 1] == '.' || cs[end - 1] == '-' || cs[end - 1] == '/')
        invariant
            start <= end <= n == cs@.len(),
            body == cs@.skip(start as int),
            strip_end(body.take(end - start)) == strip_end(body),
        decreases end,
    {
        proof {
            assert(body.take(end - start).drop_last() =~= body.take(end - start - 1));
            assert(body.take(end - start).last() == cs@[end - 1]);
        }
        end -= 1;
    }
    proof {
        let kept = body.take(end - start);
        assert(kept =~= cs@.subrange(start as int, end as int));
        if end > start {
            assert(kept.last() == cs@[end - 1]);
        }
    }
    text_of(&cs, start, end)
}

/// Every character is a digit.
pub open spec fn all_digits(t: Seq<char>) -> bool {
    forall|i: int| 0 <= i < t.len() ==> ascii_digit(#[trigger] t[i])
}

/// A stripped word that is searched by: long enough, not a stop word and not a number.
pub open spec fn searchable(t: Seq<char>) -> bool {
    t.len() >= 3 && !stop_word(t) && !all_digits(t)
}

fn is_searchable(t: &str) -> (r: bool)
    ensures
        r == searchable(t@),
{
    let cs = chars_of(t);
    if cs.len() < 3 || is_stop_word(t) {
        return false;
    }
    let mut i: usize = 0;
    while i < cs.len()
        invariant
            i <= cs@.len(),
            cs@ == t@,
            t@.len() >= 3,
            !stop_word(t@),
            forall|k: int| 0 <= k < i ==> ascii_digit(#[trigger] t@[k]),
        decreases cs.len() - i,
    {
        if !is_ascii_digit(cs[i]) {
            proof {
                assert(!ascii_digit(t@[i as int]));
            }
            return true;
        }
        i += 1;
    }
    false
}

/// A dictionary-ordered list of distinct terms with `t` among them.
pub open spec fn insert_term(sorted: Seq<Seq<char>>, t: Seq<char>) -> Seq<Seq<char>>
    decreases sorted.len(),
{
    if sorted.len() == 0 {
        seq![t]
    } else if t == sorted.last() {
        sorted
    } else if text_less(t, sorted.last()) {
        insert_term(sorted.drop_last(), t).push(sorted.last())
    } else {
        sorted.push(t)
    }
}

/// The search terms among some words, each once, in dictionary order.
pub open spec fn terms_among(ws: Seq<Seq<char>>) -> Seq<Seq<char>>
    decreases ws.len(),
{
    if ws.len() == 0 {
        Seq::empty()
    } else {
        let front = terms_among(ws.drop_last());
        let t = strip_marks(ws.last());
        if searchable(t) {
            insert_term(front, t)
        } else {
            front
        }
    }
}

/// The search terms of a text, each once, in dictionary order.
pub open spec fn terms_of(text: Seq<char>) -> Seq<Seq<char>> {
    terms_among(words(normal_form(text)))
}

/// Each term stands in the dictionary before the next.
pub open spec fn strictly_sorted(ts: Seq<Seq<char>>) -> bool {
    forall|i: int, j: int| 0 <= i < j < ts.len() ==> text_less(#[trigger] ts[i], #[trigger] ts[j])
}

proof fn lemma_insert_term(sorted: Seq<Seq<char>>, t: Seq<char>)
    requires
        strictly_sorted(sorted),
    ensures
        strictly_sorted(insert_term(sorted, t)),
        forall|x: Seq<char>|
            #[trigger] insert_term(sorted, t).contains(x) == (sorted.contains(x) || x == t),
    decreases sorted.len(),
{
    let out = insert_term(sorted, t);
    if sorted.len() == 0 {
        assert forall|x: Seq<char>| #[trigger] out.contains(x) == (sorted.contains(x) || x == t) by {
            if x == t {
                assert(out[0] == x);
            }
        }
    } else if t == sorted.last() {
        assert(sorted[sorted.len() - 1] == t);
    } else if text_less(t, sorted.last()) {
        let front = sorted.drop_last();
        assert forall|i: int, j: int| 0 <= i < j < front.len() implies text_less(
            #[trigger] front[i],
            #[trigger] front[j],
        ) by {
            assert(front[i] == sorted[i] && front[j] == sorted[j]);
        }
        lemma_insert_term(front, t);
        let short = insert_term(front, t);
        assert forall|x: Seq<char>| #[trigger] out.contains(x) == (sorted.contains(x) || x == t) by {
            assert(short.contains(x) == (front.contains(x) || x == t));
            if out.contains(x) {
                let k = choose|k: int| 0 <= k < out.len() && out[k] == x;
                if k < short.len() {
                    assert(short[k] == x);
                    if front.contains(x) {
                        let m = choose|m: int| 0 <= m < front.len() && front[m] == x;
                        assert(sorted[m] == x);
                    }
                } else {
                    assert(sorted[sorted.len() - 1] == x);
                }
            }
            if sorted.contains(x) || x == t {
                if short.contains(x) {
                    let k = choose|k: int| 0 <= k < short.len() && short[k] == x;
                    assert(out[k] == x);
                } else {
                    let m = choose|m: int| 0 <= m < sorted.len() && sorted[m] == x;
                    if m < front.len() {
                        assert(front[m] == x);
                        assert(false);
                    }
                    assert(out[out.len() - 1] == x);
                }
            }
        }
        assert forall|i: int, j: int| 0 <= i < j < out.len() implies text_less(
            #[trigger] out[i],
            #[trigger] out[j],
        ) by {
            if j < short.len() {
                assert(out[i] == short[i] && out[j] == short[j]);
            } else {
                assert(out[i] == short[i]);
                assert(short.contains(short[i]));
                if short[i] != t {
                    let m = choose|m: int| 0 <= m < front.len() && front[m] == short[i];
                    assert(sorted[m] == short[i]);
                    assert(text_less(sorted[m], sorted[sorted.len() - 1]));
                }
            }
        }
    } else {
        assert forall|x: Seq<char>| #[trigger] out.contains(x) == (sorted.contains(x) || x == t) by {
            if out.contains(x) {
                let k = choose|k: int| 0 <= k < out.len() && out[k] == x;
                if k < sorted.len() {
                    assert(sorted[k] == x);
                }
            }
            if sorted.contains(x) {
                let k = choose|k: int| 0 <= k < sorted.len() && sorted[k] == x;
                assert(out[k] == x);
            }
            if x == t {
                assert(out[out.len() - 1] == x);
            }
        }
        lemma_text_less_total(t, sorted.last());
        assert forall|i: int, j: int| 0 <= i < j < out.len() implies text_less(
            #[trigger] out[i],
            #[trigger] out[j],
        ) by {
            assert(out[i] == sorted[i]);
            if j < sorted.len() {
                assert(out[j] == sorted[j]);
            } else if i < sorted.len() - 1 {
                assert(text_less(sorted[i], sorted[sorted.len() - 1]));
                lemma_text_less_transitive(sorted[i], sorted.last(), t);
            }
        }
    }
}

proof fn lemma_terms_among(ws: Seq<Seq<char>>)
    ensures
        strictly_sorted(terms_among(ws)),
        forall|t: Seq<char>|
            #[trigger] terms_among(ws).contains(t) == (searchable(t) && exists|k: int|
                0 <= k < ws.len() && strip_marks(#[trigger] ws[k]) == t),
    decreases ws.len(),
{
    if ws.len() > 0 {
        let front = ws.drop_last();
        lemma_terms_among(front);
        let last = strip_marks(ws.last());
        if searchable(last) {
            lemma_insert_term(terms_among(front), last);
        }
        assert forall|t: Seq<char>|
            #[trigger] terms_among(ws).contains(t) == (searchable(t) && exists|k: int|
                0 <= k < ws.len() && strip_marks(#[trigger] ws[k]) == t) by {
            assert(terms_among(front).contains(t) == (searchable(t) && exists|k: int|
                0 <= k < front.len() && strip_marks(#[trigger] front[k]) == t));
            if terms_among(front).contains(t) {
                let k = choose|k: int| 0 <= k < front.len() && strip_marks(#[trigger] front[k]) == t;
                assert(ws[k] == front[k]);
            }
            if searchable(t) && exists|k: int|
                0 <= k < ws.len() && strip_marks(#[trigger] ws[k]) == t {
                let k = choose|k: int| 0 <= k < ws.len() && strip_marks(#[trigger] ws[k]) == t;
                if k < front.len() {
                    assert(front[k] == ws[k]);
                }
            }
            if t == last {
                assert(strip_marks(ws[ws.len() - 1]) == t);
            }
        }
    }
}

/// The terms of a text stand in dictionary order, none twice, and are exactly the searchable
/// stripped words of its normal form.
pub proof fn terms_are_the_searchable_words(text: Seq<char>)
    ensures
        strictly_sorted(terms_of(text)),
        terms_of(text).no_duplicates(),
        forall|t: Seq<char>|
            #[trigger] terms_of(text).contains(t) == (searchable(t) && exists|k: int|
                0 <= k < words(normal_form(text)).len() && strip_marks(
                    #[trigger] words(normal_form(text))[k],
                ) == t),
{
    lemma_terms_among(words(normal_form(text)));
    let ts = terms_of(text);
    assert forall|i: int, j: int| 0 <= i < ts.len() && 0 <= j < ts.len() && i != j implies ts[i]
        != ts[j] by {
        lemma_text_less_irreflexive(ts[i]);
        if i < j {
            assert(text_less(ts[i], ts[j]));
        } else {
            assert(text_less(ts[j], ts[i]));
        }
    }
}

/// The characters of some words, with one more for the gap behind each.
spec fn spread(ws: Seq<Seq<char>>) -> int
    decreases ws.len(),
{
    if ws.len() == 0 {
        0
    } else {
        spread(ws.drop_last()) + ws.last().len() + 1
    }
}

proof fn lemma_word_scan_spread(s: Seq<char>)
    ensures
        spread(word_scan(s).0) + word_scan(s).1.len() <= s.len(),
    decreases s.len(),
{
    if s.len() > 0 {
        lemma_word_scan_spread(s.drop_last());
        let (done, open) = word_scan(s.drop_last());
        if white_space(s.last()) && open.len() > 0 {
            assert(done.push(open).drop_last() =~= done);
        }
    }
}

proof fn lemma_squeeze_len(s: Seq<char>)
    ensures
        squeeze(s).len() <= s.len(),
    decreases s.len(),
{
    if s.len() > 0 {
        lemma_squeeze_len(s.drop_last());
    }
}

proof fn lemma_strip_len(s: Seq<char>)
    ensures
        strip_start(s).len() <= s.len(),
        strip_end(s).len() <= s.len(),
    decreases s.len(),
{
    if s.len() > 0 {
        lemma_strip_len(s.skip(1));
        lemma_strip_len(s.drop_last());
    }
}

proof fn lemma_insert_term_len(sorted: Seq<Seq<char>>, t: Seq<char>)
    ensures
        insert_term(sorted, t).len() <= sorted.len() + 1,
    decreases sorted.len(),
{
    if sorted.len() > 0 {
        lemma_insert_term_len(sorted.drop_last(), t);
    }
}

proof fn lemma_terms_spread(ws: Seq<Seq<char>>)
    ensures
        4 * terms_among(ws).len() <= spread(ws),
    decreases ws.len(),
{
    if ws.len() > 0 {
        lemma_terms_spread(ws.drop_last());
        lemma_strip_len(ws.last());
        lemma_strip_len(strip_start(ws.last()));
        lemma_insert_term_len(terms_among(ws.drop_last()), strip_marks(ws.last()));
    }
}

/// A text has at most one term for every four of its characters.
pub proof fn lemma_terms_bound(text: Seq<char>)
    ensures
        4 * terms_of(text).len() <= text.len() + 1,
{
    let normal = normal_form(text);
    lemma_squeeze_len(text);
    lemma_trim_start_shape(squeeze(text));
    lemma_trim_end_shape(trim_start(squeeze(text)));
    lemma_word_scan_spread(normal);
    lemma_terms_spread(words(normal));
    let (done, open) = word_scan(normal);
    if open.len() > 0 {
        assert(done.push(open).drop_last() =~= done);
    }
}

fn add_term(out: &mut Vec<String>, term: String)
    ensures
        texts(final(out)@) == insert_term(texts(old(out)@), term@),
{
    let mut at: usize = out.len();
    let ghost rows = texts(out@);
    let ghost t = term@;
    proof {
        assert(rows.take(rows.len() as int) =~= rows);
        assert(insert_term(rows, t) =~= insert_term(rows.take(at as int), t) + rows.skip(at as int));
    }
    while at > 0 && is_text_less(term.as_str(), out[at - 1].as_str())
        invariant
            at <= out@.len(),
            out@ == old(out)@,
            rows == texts(out@),
            t == term@,
            insert_term(rows, t) == insert_term(rows.take(at as int), t) + rows.skip(at as int),
        decreases at,
    {
        proof {
            let head = rows.take(at as int);
            lemma_text_less_irreflexive(t);
            assert(head.last() == rows[at as int - 1]);
            assert(head.drop_last() =~= rows.take(at as int - 1));
            assert(insert_term(head, t) + rows.skip(at as int) =~= insert_term(
                rows.take(at as int - 1),
                t,
            ) + rows.skip(at as int - 1));
        }
        at -= 1;
    }
    if at > 0 && same_text(term.as_str(), out[at - 1].as_str()) {
        proof {
            let head = rows.take(at as int);
            assert(head.last() == rows[at as int - 1]);
            assert(head + rows.skip(at as int) =~= rows);
        }
        return ;
    }
    proof {
        let head = rows.take(at as int);
        if at > 0 {
            assert(head.last() == rows[at as int - 1]);
        } else {
            assert(head =~= Seq::empty());
            assert(seq![t] =~= head.push(t));
        }
        assert(insert_term(head, t) == head.push(t));
    }
    out.insert(at, term);
    proof {
        assert(texts(out@) =~= rows.take(at as int).push(t) + rows.skip(at as int));
    }
}

/// The search terms of a text, each once, in dictionary order.
pub fn terms(text: &str) -> (r: Vec<String>)
    ensures
        texts(r@) == terms_of(text@),
{
    let normal = normalize_text(text);
    let ws = words_of(normal.as_str());
    let mut out: Vec<String> = Vec::new();
    let mut i: usize = 0;
    let ghost all = texts(ws@);
    proof {
        assert(all.take(0) =~= Seq::empty());
        assert(texts(out@) =~= Seq::empty());
    }
    while i < ws.len()
        invariant
            i <= ws@.len(),
            all == texts(ws@),
            texts(out@) == terms_among(all.take(i as int)),
        decreases ws.len() - i,
    {
        proof {
            assert(all.take(i as int + 1).drop_last() =~= all.take(i as int));
            assert(all.take(i as int + 1).last() == ws@[i as int]@);
        }
        let term = stripped(ws[i].as_str());
        if is_searchable(term.as_str()) {
            add_term(&mut out, term);
        }
        i += 1;
    }
    proof {
        assert(all.take(i as int) =~= all);
    }
    out
}

// ---------------------------------------------------------------------------
// Telling terms
// ---------------------------------------------------------------------------
/// How telling a term is: its length, and more for the marks of paths and names in it.
pub open spec fn term_weight(t: Seq<char>) -> int {
    t.len() + (if t.contains('.') {
        4int
    } else {
        0
    }) + (if t.contains('/') {
        4int
    } else {
        0
    }) + (if t.contains('_') {
        2int
    } else {
        0
    }) + (if t.contains('-') {
        2int
    } else {
        0
    })
}

fn has_char(cs: &Vec<char>, c: char) -> (r: bool)
    ensures
        r == cs@.contains(c),
{
    let mut i: usize = 0;
    while i < cs.len()
        invariant
            i <= cs@.len(),
            forall|k: int| 0 <= k < i ==> cs@[k] != c,
        decreases cs.len() - i,
    {
        if cs[i] == c {
            return true;
        }
        i += 1;
    }
    false
}

fn weight_of(t: &str) -> (r: u128)
    ensures
        r == term_weight(t@),
{
    let cs = chars_of(t);
    let mut weight: u128 = cs.len() as u128;
    if has_char(&cs, '.') {
        weight += 4;
    }
    if has_char(&cs, '/') {
        weight += 4;
    }
    if has_char(&cs, '_') {
        weight += 2;
    }
    if has_char(&cs, '-') {
        weight += 2;
    }
    weight
}

/// Heavier terms first; terms of one weight in dictionary order.
pub struct ByTermWeight;

impl Ranking<String> for ByTermWeight {
    open spec fn before(a: Seq<char>, b: Seq<char>) -> bool {
        term_weight(a) > term_weight(b) || (term_weight(a) == term_weight(b) && text_less(a, b))
    }

    fn precedes(a: &String, b: &String) -> (r: bool) {
        let left: u128 = weight_of(a.as_str());
        let right: u128 = weight_of(b.as_str());
        left > right || (left == right && is_text_less(a.as_str(), b.as_str()))
    }

    proof fn lawful() {
        assert forall|a: Seq<char>, b: Seq<char>|
            !(#[trigger] Self::before(a, b) && #[trigger] Self::before(b, a)) by {
            if Self::before(a, b) && Self::before(b, a) {
                lemma_text_less_transitive(a, b, a);
                lemma_text_less_irreflexive(a);
            }
        }
        assert forall|a: Seq<char>, b: Seq<char>, c: Seq<char>|
            !#[trigger] Self::before(a, b) && !#[trigger] Self::before(
                b,
                c,
            ) implies !Self::before(a, c) by {
            if Self::before(a, c) {
                lemma_text_less_total(a, b);
                lemma_text_less_total(b, c);
                if text_less(b, a) && text_less(a, c) {
                    lemma_text_less_transitive(b, a, c);
                }
                if text_less(a, c) && text_less(c, b) {
                    lemma_text_less_transitive(a, c, b);
                }
            }
        }
    }
}

/// The first `limit` items of a list.
pub open spec fn at_most<A>(items: Seq<A>, limit: int) -> Seq<A> {
    if limit < items.len() {
        items.take(limit)
    } else {
        items
    }
}

/// The most telling terms of a text, at most `limit` of them.
pub open spec fn top_terms_of(text: Seq<char>, limit: int) -> Seq<Seq<char>> {
    at_most(ranked::<String, ByTermWeight>(terms_of(text)), limit)
}

/// The most telling terms of a text, at most `limit` of them.
pub fn top_terms(text: &str, limit: usize) -> (r: Vec<String>)
    ensures
        texts(r@) == top_terms_of(text@, limit as int),
{
    let found = terms(text);
    proof {
        assert(views(found@) =~= texts(found@));
    }
    let mut sorted = sort_ranked::<String, ByTermWeight>(found);
    proof {
        assert(views(sorted@) =~= texts(sorted@));
    }
    let ghost all = texts(sorted@);
    if limit < sorted.len() {
        sorted.truncate(limit);
        proof {
            assert(texts(sorted@) =~= all.take(limit as int));
        }
    }
    sorted
}

// ---------------------------------------------------------------------------
// Summaries
// ---------------------------------------------------------------------------
/// The number of bytes of a character in UTF-8.
pub open spec fn utf8_width(c: char) -> int {
    if c <= '\u{7f}' {
        1
    } else if c <= '\u{7ff}' {
        2
    } else if c <= '\u{ffff}' {
        3
    } else {
        4
    }
}

/// The number of bytes of a text in UTF-8.
pub open spec fn utf8_len(s: Seq<char>) -> int
    decreases s.len(),
{
    if s.len() == 0 {
        0
    } else {
        utf8_len(s.drop_last()) + utf8_width(s.last())
    }
}

/// The byte length used in summaries is that of the UTF-8 encoding.
pub proof fn lemma_utf8_len_is_encoded_len(s: Seq<char>)
    ensures
        utf8_len(s) == encode_utf8(s).len(),
    decreases s.len(),
{
    if s.len() > 0 {
        lemma_utf8_len_is_encoded_len(s.drop_first());
        lemma_utf8_len_front(s);
        lemma_encoded_width(s[0]);
        assert(encode_utf8(s) == encode_scalar(s[0] as u32) + encode_utf8(s.drop_first()));
    }
}

proof fn lemma_encoded_width(c: char)
    ensures
        encode_scalar(c as u32).len() == utf8_width(c),
{
    char_is_scalar(c);
}

proof fn lemma_utf8_len_front(s: Seq<char>)
    requires
        s.len() > 0,
    ensures
        utf8_len(s) == utf8_width(s[0]) + utf8_len(s.drop_first()),
    decreases s.len(),
{
    if s.len() > 1 {
        lemma_utf8_len_front(s.drop_last());
        assert(s.drop_last().drop_first() =~= s.drop_first().drop_last());
    } else {
        assert(s.drop_last() =~= Seq::empty());
        assert(s.drop_first() =~= Seq::empty());
    }
}

/// How many leading characters fit into `max` bytes.
pub open spec fn fitting(s: Seq<char>, max: int) -> int
    decreases s.len(),
{
    if s.len() == 0 || utf8_len(s) <= max {
        s.len() as int
    } else {
        fitting(s.drop_last(), max)
    }
}

/// A one-line form of a text: its words with single spaces, cut before the character that
/// would pass `max` bytes and marked with an ellipsis where something was cut.
pub open spec fn concise_form(text: Seq<char>, max: int) -> Seq<char> {
    let line = join(words(text), " "@);
    if utf8_len(line) <= max {
        line
    } else {
        trim_end(line.take(fitting(line, max))) + "..."@
    }
}

proof fn lemma_utf8_len_monotone(s: Seq<char>, k: int)
    requires
        0 <= k <= s.len(),
    ensures
        0 <= utf8_len(s.take(k)) <= utf8_len(s),
    decreases s.len(),
{
    if k < s.len() {
        lemma_utf8_len_monotone(s.drop_last(), k);
        assert(s.drop_last().take(k) =~= s.take(k));
    } else {
        assert(s.take(k) =~= s);
        if s.len() > 0 {
            lemma_utf8_len_monotone(s.drop_last(), 0);
        }
    }
}

proof fn lemma_fitting(s: Seq<char>, max: int, k: int)
    requires
        0 <= k < s.len(),
        utf8_len(s.take(k)) <= max,
        utf8_len(s.take(k + 1)) > max,
    ensures
        fitting(s, max) == k,
        utf8_len(s) > max,
    decreases s.len(),
{
    lemma_utf8_len_monotone(s, k + 1);
    let front = s.drop_last();
    if k + 1 < s.len() {
        assert(front.take(k) =~= s.take(k));
        assert(front.take(k + 1) =~= s.take(k + 1));
        lemma_fitting(front, max, k);
    } else {
        assert(front =~= s.take(k));
        assert(s.take(k + 1) =~= s);
        assert(fitting(front, max) == k);
    }
}

fn width_of(c: char) -> (r: usize)
    ensures
        r == utf8_width(c),
        1 <= r <= 4,
{
    if c <= '\u{7f}' {
        1
    } else if c <= '\u{7ff}' {
        2
    } else if c <= '\u{ffff}' {
        3
    } else {
        4
    }
}

/// A one-line form of a text, at most `max_chars` bytes of it.
pub fn concise(text: &str, max_chars: usize) -> (r: String)
    ensures
        r@ == concise_form(text@, max_chars as int),
{
    let ws = words_of(text);
    let line = join_texts(&ws, " ");
    let cs = chars_of(line.as_str());
    let mut used: usize = 0;
    let mut i: usize = 0;
    proof {
        assert(cs@.take(0) =~= Seq::empty());
    }
    while i < cs.len()
        invariant
            i <= cs@.len(),
            cs@ == line@,
            line@ == join(words(text@), " "@),
            used == utf8_len(cs@.take(i as int)),
            used <= max_chars,
        decreases cs.len() - i,
    {
        let width: usize = width_of(cs[i]);
        proof {
            assert(cs@.take(i as int + 1).drop_last() =~= cs@.take(i as int));
            assert(cs@.take(i as int + 1).last() == cs@[i as int]);
        }
        if width > max_chars - used {
            proof {
                lemma_fitting(cs@, max_chars as int, i as int);
            }
            let head = text_of(&cs, 0, i);
            proof {
                assert(head@ =~= cs@.take(i as int));
            }
            let mut clipped = trimmed_end(head.as_str());
            clipped.append("...");
            return clipped;
        }
        used += width;
        i += 1;
    }
    proof {
        assert(cs@.take(i as int) =~= cs@);
    }
    line
}

fn trimmed_end(s: &str) -> (r: String)
    ensures
        r@ == trim_end(s@),
{
    let cs = chars_of(s);
    let mut end: usize = cs.len();
    proof {
        assert(cs@.take(end as int) =~= cs@);
    }
    while end > 0 && is_white_space(cs[end - 1])
        invariant
            end <= cs@.len(),
            trim_end(cs@.take(end as int)) == trim_end(cs@),
        decreases end,
    {
        proof {
            assert(cs@.take(end as int).drop_last() =~= cs@.take(end as int - 1));
        }
        end -= 1;
    }
    proof {
        assert(cs@.take(end as int) =~= cs@.subrange(0, end as int));
        if end > 0 {
            assert(cs@.take(end as int).last() == cs@[end as int - 1]);
        }
    }
    text_of(&cs, 0, end)
}

// ---------------------------------------------------------------------------
// Identifiers
// ---------------------------------------------------------------------------
/// One round of the 64-bit FNV-1a hash.
pub open spec fn fnv_round(hash: u64, byte: u8) -> u64 {
    (hash ^ (byte as u64)).wrapping_mul(0x100000001b3)
}

pub open spec fn fnv_bytes(hash: u64, bytes: Seq<u8>) -> u64
    decreases bytes.len(),
{
    if bytes.len() == 0 {
        hash
    } else {
        fnv_round(fnv_bytes(hash, bytes.drop_last()), bytes.last())
    }
}

/// The FNV-1a hash of some texts, each closed with a byte that no UTF-8 text holds.
pub open spec fn fnv_texts(parts: Seq<Seq<char>>) -> u64
    decreases parts.len(),
{
    if parts.len() == 0 {
        0xcbf29ce484222325
    } else {
        fnv_bytes(fnv_texts(parts.drop_last()), encode_utf8(parts.last()).push(0xff))
    }
}

/// An identifier that depends on nothing but a prefix and some texts.
pub open spec fn stable_id_of(prefix: Seq<char>, parts: Seq<Seq<char>>) -> Seq<char> {
    prefix + "_"@ + hex(fnv_texts(parts) as nat, 16)
}

/// The texts of a sequence of borrowed strings.
pub open spec fn str_texts(parts: Seq<&str>) -> Seq<Seq<char>> {
    Seq::new(parts.len(), |i: int| parts[i]@)
}

/// An identifier that depends on nothing but a prefix and some texts.
pub fn stable_id(prefix: &str, parts: &[&str]) -> (r: String)
    ensures
        r@ == stable_id_of(prefix@, str_texts(parts@)),
{
    let mut hash: u64 = 0xcbf29ce484222325;
    let mut i: usize = 0;
    let ghost all = str_texts(parts@);
    proof {
        assert(all.take(0) =~= Seq::empty());
    }
    while i < parts.len()
        invariant
            i <= parts@.len(),
            all == str_texts(parts@),
            hash == fnv_texts(all.take(i as int)),
        decreases parts.len() - i,
    {
        let bytes = parts[i].as_bytes();
        let ghost start = hash;
        let ghost encoded = encode_utf8(parts@[i as int]@);
        let mut k: usize = 0;
        proof {
            assert(encoded.take(0) =~= Seq::empty());
        }
        while k < bytes.len()
            invariant
                k <= bytes@.len(),
                bytes@ == encoded,
                hash == fnv_bytes(start, encoded.take(k as int)),
            decreases bytes.len() - k,
        {
            proof {
                assert(encoded.take(k as int + 1).drop_last() =~= encoded.take(k as int));
                assert(encoded.take(k as int + 1).last() == bytes@[k as int]);
            }
            hash = (hash ^ (bytes[k] as u64)).wrapping_mul(0x100000001b3);
            k += 1;
        }
        proof {
            assert(encoded.take(k as int) =~= encoded);
            assert(encoded.push(0xff).drop_last() =~= encoded);
            assert(all.take(i as int + 1).drop_last() =~= all.take(i as int));
            assert(all.take(i as int + 1).last() == parts@[i as int]@);
        }
        hash = (hash ^ 0xff).wrapping_mul(0x100000001b3);
        i += 1;
    }
    proof {
        assert(all.take(i as int) =~= all);
    }
    let mut out = prefix.to_owned();
    out.append("_");
    let digits = hex_text(hash, 16);
    out.append(digits.as_str());
    out
}

/// The key under which restatements of one memory are found: its kind and most telling terms.
pub open spec fn canonical_key_of(kind: Seq<char>, text: Seq<char>) -> Seq<char> {
    let normal = normal_form(text);
    let compact = join(top_terms_of(normal, 12), " "@);
    if compact.len() == 0 {
        kind + ":"@ + stable_id_of("empty"@, seq![normal])
    } else {
        kind + ":"@ + compact
    }
}

/// The key under which restatements of one memory are found: its kind and most telling terms.
pub fn canonical_key(kind: &str, text: &str) -> (r: String)
    ensures
        r@ == canonical_key_of(kind@, text@),
{
    let normal = normalize_text(text);
    let telling = top_terms(normal.as_str(), 12);
    let compact = join_texts(&telling, " ");
    let mut out = kind.to_owned();
    out.append(":");
    if compact.as_str().is_empty() {
        let parts = [normal.as_str()];
        let id = stable_id("empty", &parts);
        proof {
            assert(str_texts(parts@) =~= seq![normal@]);
        }
        out.append(id.as_str());
    } else {
        out.append(compact.as_str());
    }
    out
}

// ---------------------------------------------------------------------------
// Overlap
// ---------------------------------------------------------------------------
/// The terms of a text as a set.
pub open spec fn term_set(text: Seq<char>) -> Set<Seq<char>> {
    terms_of(text).to_set()
}

/// How far two texts share their terms: the shared terms, and all terms of either text.
#[derive(Clone, Copy, Debug, PartialEq, Eq, Structural)]
pub struct Overlap {
    pub shared: usize,
    pub total: usize,
}

/// The share of some terms among all, as it is worked out in 24 binary digits: the two counts,
/// their quotient, and at most one.
pub open spec fn share_of(shared: nat, total: nat) -> nat {
    let over = nearest(DIGITS_24 as nat, shared, 1);
    let under = nearest(DIGITS_24 as nat, total, 1);
    if shared == 0 {
        0
    } else if over >= under {
        ONE as nat
    } else {
        in_24_digits(over, under)
    }
}

impl Overlap {
    /// The share of the shared terms, in units of which `ONE` make the number one.
    pub fn share(self) -> (r: u128)
        ensures
            r == share_of(self.shared as nat, self.total as nat),
            r <= ONE,
    {
        if self.shared == 0 {
            return 0;
        }
        let over: u128 = nearest_whole(DIGITS_24, self.shared as u128);
        let under: u128 = nearest_whole(DIGITS_24, self.total as u128);
        if over >= under {
            ONE
        } else {
            fraction_in_24_digits(over, under)
        }
    }

    /// Whether the share is at least some hundredths.
    pub fn at_least(self, percent: u8) -> (r: bool)
        requires
            0 < percent <= 100,
        ensures
            r == (share_of(self.shared as nat, self.total as nat) >= in_24_digits(
                percent as nat,
                100,
            )),
    {
        self.share() >= fraction_in_24_digits(percent as u128, 100)
    }

    /// Whether the share is greater than another.
    pub fn above(self, other: Overlap) -> (r: bool)
        ensures
            r == (share_of(self.shared as nat, self.total as nat) > share_of(
                other.shared as nat,
                other.total as nat,
            )),
    {
        self.share() > other.share()
    }
}

/// How many terms two texts share, out of all terms that either holds.
pub open spec fn overlap_of(left: Seq<char>, right: Seq<char>) -> (nat, nat) {
    (term_set(left).intersect(term_set(right)).len(), term_set(left).union(term_set(right)).len())
}

/// The share of the terms that two texts have in common.
pub open spec fn overlap_share(left: Seq<char>, right: Seq<char>) -> nat {
    share_of(overlap_of(left, right).0, overlap_of(left, right).1)
}

/// The shared terms of two texts and all terms of either.
pub fn overlap_score(left: &str, right: &str) -> (r: Overlap)
    ensures
        (r.shared as nat, r.total as nat) == overlap_of(left@, right@),
{
    let left_len: usize = left.unicode_len();
    let right_len: usize = right.unicode_len();
    let a = terms(left);
    let b = terms(right);
    let ghost ta = terms_of(left@);
    let ghost tb = terms_of(right@);
    proof {
        terms_are_the_searchable_words(left@);
        terms_are_the_searchable_words(right@);
        lemma_terms_bound(left@);
        lemma_terms_bound(right@);
        tb.unique_seq_to_set();
        vstd::seq_lib::seq_to_set_is_finite(tb);
        assert(ta.take(0).to_set() =~= Set::empty());
        assert(ta.take(0).to_set().intersect(tb.to_set()) =~= Set::empty());
        assert(ta.take(0).to_set().union(tb.to_set()) =~= tb.to_set());
    }
    let mut shared: usize = 0;
    let mut extra: usize = 0;
    let mut i: usize = 0;
    while i < a.len()
        invariant
            i <= a@.len(),
            texts(a@) == ta,
            texts(b@) == tb,
            ta.no_duplicates(),
            tb.to_set().finite(),
            shared + extra == i,
            4 * a@.len() <= left_len + 1,
            4 * b@.len() <= right_len + 1,
            ta.take(i as int).to_set().finite(),
            shared == ta.take(i as int).to_set().intersect(tb.to_set()).len(),
            tb.len() == tb.to_set().len(),
            tb.len() + extra == ta.take(i as int).to_set().union(tb.to_set()).len(),
        decreases a.len() - i,
    {
        proof {
            let t = ta[i as int];
            let front = ta.take(i as int);
            assert(ta.take(i as int + 1) =~= front.push(t));
            assert(front.push(t).to_set() =~= front.to_set().insert(t)) by {
                front.lemma_push_to_set_commute(t);
            }
            assert(!front.contains(t)) by {
                if front.contains(t) {
                    let k = choose|k: int| 0 <= k < front.len() && front[k] == t;
                    assert(ta[k] == ta[i as int]);
                }
            }
            assert(front.to_set().insert(t).union(tb.to_set()) =~= front.to_set().union(
                tb.to_set(),
            ).insert(t));
            if tb.contains(t) {
                assert(front.to_set().insert(t).intersect(tb.to_set()) =~= front.to_set().intersect(
                    tb.to_set(),
                ).insert(t));
                assert(front.to_set().union(tb.to_set()).contains(t));
                assert(front.to_set().union(tb.to_set()).insert(t) =~= front.to_set().union(
                    tb.to_set(),
                ));
            } else {
                assert(front.to_set().insert(t).intersect(tb.to_set()) =~= front.to_set().intersect(
                    tb.to_set(),
                ));
                assert(!front.to_set().union(tb.to_set()).contains(t));
            }
        }
        if list_contains(&b, a[i].as_str()) {
            shared += 1;
        } else {
            extra += 1;
        }
        i += 1;
    }
    proof {
        assert(ta.take(i as int) =~= ta);
    }
    Overlap { shared, total: b.len() + extra }
}

} // verus!
