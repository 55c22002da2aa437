//! What holds of normal forms and terms.
use vstd::prelude::*;

use crate::chars::{
    ascii_digit, ascii_lower, hex, join, lemma_text_less_irreflexive, lemma_text_less_transitive,
    lower, text_less, trim, trim_end, trim_start, white_space, word_scan, words,
};
use crate::glob::plain;
use crate::model::MemoryNodeKind;
use crate::order::{lemma_ranked_contains, ranked};
use crate::text::{
    canonical_key_of, edge_mark, insert_term, normal_form, searchable, squeeze, stable_id_of,
    strictly_sorted, strip_end, strip_marks, strip_start, term_char, terms_among,
    terms_are_the_searchable_words, terms_of, top_terms_of, ByTermWeight,
};

verus! {

// ---------------------------------------------------------------------------
// Normal forms
// ---------------------------------------------------------------------------
/// A character of a normal form other than the space.
pub open spec fn plain_char(c: char) -> bool {
    'a' <= c <= 'z' || ascii_digit(c) || c == '_' || c == '-' || c == '.' || c == '/'
}

/// A character in upper case.
pub open spec fn ascii_upper(c: char) -> char {
    if 'a' <= c <= 'z' {
        ((c as u8) - 32) as u8 as char
    } else {
        c
    }
}

/// A text in upper case.
pub open spec fn upper(s: Seq<char>) -> Seq<char> {
    Seq::new(s.len(), |i: int| ascii_upper(s[i]))
}

/// A text of plain characters and spaces that neither begins with a space nor holds two in a
/// row.
spec fn single_spaced(s: Seq<char>) -> bool {
    &&& forall|i: int| 0 <= i < s.len() ==> plain_char(#[trigger] s[i]) || s[i] == ' '
    &&& s.len() > 0 ==> s[0] != ' '
    &&& forall|i: int, j: int| 0 <= i < s.len() && j == i + 1 && j < s.len() ==> !(#[trigger] s[i] == ' ' && #[trigger] s[j] == ' ')
}

/// A text of plain characters and spaces that neither begins nor ends with a space nor holds two
/// in a row.
pub open spec fn is_plain(s: Seq<char>) -> bool {
    &&& forall|i: int| 0 <= i < s.len() ==> plain_char(#[trigger] s[i]) || s[i] == ' '
    &&& s.len() > 0 ==> s[0] != ' ' && s.last() != ' '
    &&& forall|i: int, j: int|
        0 <= i < s.len() && j == i + 1 && j < s.len() ==> !(#[trigger] s[i] == ' '
            && #[trigger] s[j] == ' ')
}

proof fn lemma_squeeze_shape(s: Seq<char>)
    ensures
        single_spaced(squeeze(s)),
    decreases s.len(),
{
    if s.len() > 0 {
        lemma_squeeze_shape(s.drop_last());
    }
}

/// Trimming a text that is single-spaced takes away a space at its end, if there is one.
proof fn lemma_trim_single_spaced(s: Seq<char>)
    requires
        single_spaced(s),
    ensures
        is_plain(trim(s)),
        trim(s) == (if s.len() > 0 && s.last() == ' ' {
            s.drop_last()
        } else {
            s
        }),
{
    assert(trim_start(s) == s);
    if s.len() > 0 && s.last() == ' ' {
        let t = s.drop_last();
        assert(s[s.len() - 1] == ' ');
        if t.len() > 0 {
            assert(t.last() == s[s.len() - 2]);
            assert(plain_char(t.last()));
        }
        assert(trim_end(t) == t);
        assert(trim_end(s) == trim_end(t));
        assert forall|i: int, j: int|
            0 <= i < t.len() && j == i + 1 && j < t.len() implies !(#[trigger] t[i] == ' '
            && #[trigger] t[j] == ' ') by {
            assert(t[i] == s[i] && t[j] == s[j]);
        }
    } else if s.len() > 0 {
        assert(plain_char(s[s.len() - 1]));
        assert(trim_end(s) == s);
    }
}

/// A text that is single-spaced is squeezed already.
proof fn lemma_squeeze_single_spaced(s: Seq<char>)
    requires
        single_spaced(s),
    ensures
        squeeze(s) == s,
    decreases s.len(),
{
    if s.len() > 0 {
        let front = s.drop_last();
        assert(single_spaced(front)) by {
            assert forall|i: int, j: int|
                0 <= i < front.len() && j == i + 1 && j < front.len() implies !(
            #[trigger] front[i] == ' ' && #[trigger] front[j] == ' ') by {
                assert(front[i] == s[i] && front[j] == s[j]);
            }
        }
        lemma_squeeze_single_spaced(front);
        assert(s =~= front.push(s.last()));
        assert(plain_char(s[s.len() - 1]) || s[s.len() - 1] == ' ');
        if s.last() == ' ' {
            assert(s.len() > 1);
            assert(!(s[s.len() - 2] == ' ' && s[s.len() - 1] == ' '));
            assert(front.last() == s[s.len() - 2]);
        } else {
            assert(ascii_lower(s.last()) == s.last());
        }
    } else {
        assert(s =~= Seq::empty());
    }
}

/// A normal form holds lower-case letters, digits, the four marks and spaces; a space stands
/// neither at its ends nor next to another.
pub proof fn normal_forms_are_plain(text: Seq<char>)
    ensures
        is_plain(normal_form(text)),
{
    lemma_squeeze_shape(text);
    lemma_trim_single_spaced(squeeze(text));
}

/// A text that is plain is its own normal form.
proof fn lemma_plain_is_normal(s: Seq<char>)
    requires
        is_plain(s),
    ensures
        normal_form(s) == s,
{
    lemma_squeeze_single_spaced(s);
    lemma_trim_single_spaced(s);
}

/// A normal form is its own normal form.
pub proof fn normal_forms_are_stable(text: Seq<char>)
    ensures
        normal_form(normal_form(text)) == normal_form(text),
{
    normal_forms_are_plain(text);
    lemma_plain_is_normal(normal_form(text));
}

/// Case does not matter: a text has the normal form that it has in upper and in lower case.
pub proof fn normal_forms_ignore_case(text: Seq<char>)
    ensures
        normal_form(upper(text)) == normal_form(text),
        normal_form(lower(text)) == normal_form(text),
    decreases text.len(),
{
    lemma_squeeze_ignores_case(text);
}

proof fn lemma_squeeze_ignores_case(text: Seq<char>)
    ensures
        squeeze(upper(text)) == squeeze(text),
        squeeze(lower(text)) == squeeze(text),
    decreases text.len(),
{
    if text.len() > 0 {
        let front = text.drop_last();
        lemma_squeeze_ignores_case(front);
        assert(upper(text).drop_last() =~= upper(front));
        assert(lower(text).drop_last() =~= lower(front));
        let c = text.last();
        assert(upper(text).last() == ascii_upper(c));
        assert(lower(text).last() == ascii_lower(c));
        assert(ascii_lower(ascii_upper(c)) == ascii_lower(c));
        assert(ascii_lower(ascii_lower(c)) == ascii_lower(c));
        assert(term_char(ascii_upper(c)) == term_char(c));
        assert(term_char(ascii_lower(c)) == term_char(c));
    } else {
        assert(upper(text) =~= text);
        assert(lower(text) =~= text);
    }
}

/// Characters other than the space.
pub open spec fn not_space() -> spec_fn(char) -> bool {
    |c: char| c != ' '
}

/// Characters that a normal form keeps.
pub open spec fn kept_char() -> spec_fn(char) -> bool {
    |c: char| term_char(c)
}

/// A normal form loses none of the characters that it keeps: spaces aside, it is the letters,
/// digits and marks of the text in their order, in lower case.
pub proof fn normal_forms_keep_their_characters(text: Seq<char>)
    ensures
        normal_form(text).filter(not_space()) == lower(text.filter(kept_char())),
{
    reveal(Seq::filter);
    lemma_squeeze_keeps(text);
    lemma_squeeze_shape(text);
    lemma_trim_single_spaced(squeeze(text));
}

proof fn lemma_squeeze_keeps(text: Seq<char>)
    ensures
        squeeze(text).filter(not_space()) == lower(text.filter(kept_char())),
    decreases text.len(),
{
    reveal(Seq::filter);
    if text.len() > 0 {
        let front = text.drop_last();
        lemma_squeeze_keeps(front);
        let c = text.last();
        let done = squeeze(front);
        if term_char(c) {
            let low = ascii_lower(c);
            assert(low != ' ');
            assert(done.push(low).drop_last() =~= done);
            assert(lower(front.filter(kept_char()).push(c)) =~= lower(
                front.filter(kept_char()),
            ).push(low));
        } else {
            assert(done.push(' ').drop_last() =~= done);
        }
    } else {
        assert(squeeze(text).filter(not_space()) =~= lower(text.filter(kept_char())));
    }
}

// ---------------------------------------------------------------------------
// Terms
// ---------------------------------------------------------------------------
/// A term as it stands in a list: long enough, of plain characters, without marks at its ends,
/// and neither a number nor a stop word.
pub open spec fn is_term(t: Seq<char>) -> bool {
    &&& searchable(t)
    &&& forall|i: int| 0 <= i < t.len() ==> plain_char(#[trigger] t[i])
    &&& !edge_mark(t[0]) && !edge_mark(t.last())
}

/// Each term of a text is at least three characters long, holds lower-case letters, digits and
/// marks, no mark but `_` at its ends, and is neither a number nor a stop word.
pub proof fn terms_have_the_shape_of_terms(text: Seq<char>)
    ensures
        forall|i: int| 0 <= i < terms_of(text).len() ==> is_term(#[trigger] terms_of(text)[i]),
{
    terms_are_the_searchable_words(text);
    normal_forms_are_plain(text);
    let s = normal_form(text);
    let ws = words(s);
    lemma_words_are_plain(s);
    assert forall|i: int| 0 <= i < terms_of(text).len() implies is_term(
        #[trigger] terms_of(text)[i],
    ) by {
        let t = terms_of(text)[i];
        assert(terms_of(text).contains(t));
        let k = choose|k: int| 0 <= k < ws.len() && strip_marks(#[trigger] ws[k]) == t;
        lemma_strip_start(ws[k]);
        lemma_strip_end(strip_start(ws[k]));
        let inner = strip_start(ws[k]);
        assert(t[0] == inner[0]);
        assert forall|j: int| 0 <= j < t.len() implies plain_char(#[trigger] t[j]) by {
            assert(t[j] == inner[j]);
            assert(inner[j] == ws[k][ws[k].len() - inner.len() + j]);
        }
    }
}

proof fn lemma_strip_start(s: Seq<char>)
    ensures
        strip_start(s).len() <= s.len(),
        strip_start(s) == s.skip(s.len() - strip_start(s).len()),
        strip_start(s).len() > 0 ==> !edge_mark(strip_start(s)[0]),
    decreases s.len(),
{
    if s.len() > 0 && edge_mark(s[0]) {
        lemma_strip_start(s.skip(1));
        let t = strip_start(s.skip(1));
        assert(t =~= s.skip(s.len() - t.len()));
    } else {
        assert(s.skip(0) =~= s);
    }
}

proof fn lemma_strip_end(s: Seq<char>)
    ensures
        strip_end(s).len() <= s.len(),
        strip_end(s) == s.take(strip_end(s).len() as int),
        strip_end(s).len() > 0 ==> !edge_mark(strip_end(s).last()),
    decreases s.len(),
{
    if s.len() > 0 && edge_mark(s.last()) {
        lemma_strip_end(s.drop_last());
        let t = strip_end(s.drop_last());
        assert(t =~= s.take(t.len() as int));
    } else {
        assert(s.take(s.len() as int) =~= s);
    }
}

/// The words of a plain text hold no space.
spec fn words_plain(ws: Seq<Seq<char>>) -> bool {
    forall|k: int, i: int|
        0 <= k < ws.len() && 0 <= i < ws[k].len() ==> plain_char(#[trigger] ws[k][i])
}

proof fn lemma_word_scan_plain(s: Seq<char>)
    requires
        forall|i: int| 0 <= i < s.len() ==> plain_char(#[trigger] s[i]) || s[i] == ' ',
    ensures
        words_plain(word_scan(s).0),
        forall|i: int| 0 <= i < word_scan(s).1.len() ==> plain_char(#[trigger] word_scan(s).1[i]),
    decreases s.len(),
{
    if s.len() > 0 {
        let front = s.drop_last();
        assert forall|i: int| 0 <= i < front.len() implies plain_char(#[trigger] front[i])
            || front[i] == ' ' by {
            assert(front[i] == s[i]);
        }
        lemma_word_scan_plain(front);
        assert(plain_char(s[s.len() - 1]) || s[s.len() - 1] == ' ');
        let (done, open) = word_scan(front);
        if white_space(s.last()) && open.len() > 0 {
            let all = done.push(open);
            assert forall|k: int, i: int|
                0 <= k < all.len() && 0 <= i < all[k].len() implies plain_char(
                #[trigger] all[k][i],
            ) by {
                if k < done.len() {
                    assert(plain_char(done[k][i]));
                }
            }
        }
    }
}

proof fn lemma_words_are_plain(s: Seq<char>)
    requires
        is_plain(s),
    ensures
        words_plain(words(s)),
{
    lemma_word_scan_plain(s);
    let (done, open) = word_scan(s);
    if open.len() > 0 {
        let all = done.push(open);
        assert forall|k: int, i: int| 0 <= k < all.len() && 0 <= i < all[k].len() implies plain_char(
            #[trigger] all[k][i],
        ) by {
            if k < done.len() {
                assert(plain_char(done[k][i]));
            }
        }
    }
}

/// A word behind a text is left open by a scan.
proof fn lemma_scan_word(s: Seq<char>, t: Seq<char>)
    requires
        word_scan(s).1.len() == 0,
        forall|i: int| 0 <= i < t.len() ==> plain_char(#[trigger] t[i]),
    ensures
        word_scan(s + t) == (word_scan(s).0, t),
    decreases t.len(),
{
    if t.len() == 0 {
        assert(s + t =~= s);
        assert(word_scan(s).1 =~= t);
    } else {
        let front = t.drop_last();
        assert forall|i: int| 0 <= i < front.len() implies plain_char(#[trigger] front[i]) by {
            assert(front[i] == t[i]);
        }
        lemma_scan_word(s, front);
        assert((s + t).drop_last() =~= s + front);
        assert((s + t).last() == t[t.len() - 1]);
        assert(plain_char(t[t.len() - 1]));
        assert(!white_space(t.last()));
        assert(front.push(t.last()) =~= t);
    }
}

/// Terms joined by spaces are a plain text whose words they are.
proof fn lemma_joined_terms(ts: Seq<Seq<char>>)
    requires
        forall|i: int| 0 <= i < ts.len() ==> is_term(#[trigger] ts[i]),
    ensures
        is_plain(join(ts, " "@)),
        words(join(ts, " "@)) == ts,
        ts.len() > 0 ==> word_scan(join(ts, " "@)) == (ts.drop_last(), ts.last()),
    decreases ts.len(),
{
    reveal_strlit(" ");
    let all = join(ts, " "@);
    if ts.len() == 0 {
        assert(words(all) =~= ts);
    } else {
        let front = ts.drop_last();
        let t = ts.last();
        assert(t == ts[ts.len() - 1]);
        assert(is_term(t));
        assert forall|i: int| 0 <= i < front.len() implies is_term(#[trigger] front[i]) by {
            assert(front[i] == ts[i]);
        }
        lemma_joined_terms(front);
        if ts.len() == 1 {
            lemma_scan_word(Seq::empty(), t);
            assert(Seq::<char>::empty() + t =~= all);
            assert(ts.drop_last() =~= Seq::empty());
            assert forall|i: int| 0 <= i < all.len() implies plain_char(#[trigger] all[i]) || all[i]
                == ' ' by {
                assert(plain_char(t[i]));
            }
            assert(plain_char(t[0]) && plain_char(t[t.len() - 1]));
            assert forall|i: int, j: int|
                0 <= i < all.len() && j == i + 1 && j < all.len() implies !(#[trigger] all[i] == ' '
                && #[trigger] all[j] == ' ') by {
                assert(plain_char(t[i]));
            }
        } else {
            let head = join(front, " "@);
            let spaced = head + " "@;
            assert(all =~= spaced + t);
            assert(is_term(front[front.len() - 1]));
            assert(front.last().len() > 0);
            assert(spaced.drop_last() =~= head);
            assert(spaced.last() == ' ');
            assert(word_scan(spaced).0 == front.drop_last().push(front.last()));
            assert(front.drop_last().push(front.last()) =~= front);
            lemma_scan_word(spaced, t);
            if head.len() == 0 {
                assert(word_scan(head).1.len() == 0);
            }
            assert(plain_char(t[0]) && plain_char(t[t.len() - 1]));
            assert(all[0] == head[0]);
            assert(all.last() == t[t.len() - 1]);
            assert forall|i: int| 0 <= i < all.len() implies plain_char(#[trigger] all[i]) || all[i]
                == ' ' by {
                if i < head.len() {
                    assert(all[i] == head[i]);
                } else if i > head.len() {
                    assert(all[i] == t[i - head.len() - 1]);
                }
            }
            assert forall|i: int, j: int|
                0 <= i < all.len() && j == i + 1 && j < all.len() implies !(#[trigger] all[i] == ' '
                && #[trigger] all[j] == ' ') by {
                if j < head.len() {
                    assert(all[i] == head[i] && all[j] == head[j]);
                } else if j == head.len() {
                    assert(all[i] == head[head.len() - 1]);
                } else {
                    assert(all[j] == t[j - head.len() - 1]);
                    assert(plain_char(t[j - head.len() - 1]));
                }
            }
        }
        assert(ts.drop_last().push(ts.last()) =~= ts);
    }
}

/// Picking the terms among sorted terms gives the terms.
proof fn lemma_terms_among_terms(ts: Seq<Seq<char>>)
    requires
        strictly_sorted(ts),
        forall|i: int| 0 <= i < ts.len() ==> is_term(#[trigger] ts[i]),
    ensures
        terms_among(ts) == ts,
    decreases ts.len(),
{
    if ts.len() > 0 {
        let front = ts.drop_last();
        let t = ts.last();
        assert(is_term(ts[ts.len() - 1]));
        assert forall|i: int| 0 <= i < front.len() implies is_term(#[trigger] front[i]) by {
            assert(front[i] == ts[i]);
        }
        assert forall|i: int, j: int| 0 <= i < j < front.len() implies text_less(
            #[trigger] front[i],
            #[trigger] front[j],
        ) by {
            assert(front[i] == ts[i] && front[j] == ts[j]);
        }
        lemma_terms_among_terms(front);
        assert(strip_start(t) == t);
        assert(strip_end(t) == t);
        if front.len() > 0 {
            let last = front.last();
            assert(last == ts[ts.len() - 2]);
            assert(text_less(ts[ts.len() - 2], ts[ts.len() - 1]));
            lemma_text_less_irreflexive(t);
            if text_less(t, last) {
                lemma_text_less_transitive(t, last, t);
            }
            assert(insert_term(front, t) == front.push(t));
        } else {
            assert(insert_term(front, t) =~= front.push(t));
        }
        assert(front.push(t) =~= ts);
    } else {
        assert(terms_among(ts) =~= ts);
    }
}

/// The terms of a text's terms, joined by spaces, are the same terms.
pub proof fn terms_read_back(text: Seq<char>)
    ensures
        terms_of(join(terms_of(text), " "@)) == terms_of(text),
{
    let ts = terms_of(text);
    terms_are_the_searchable_words(text);
    terms_have_the_shape_of_terms(text);
    lemma_joined_terms(ts);
    lemma_plain_is_normal(join(ts, " "@));
    lemma_terms_among_terms(ts);
}

// ---------------------------------------------------------------------------
// Keys
// ---------------------------------------------------------------------------
proof fn lemma_plain_joined(a: Seq<char>, b: Seq<char>)
    requires
        plain(a),
        plain(b),
    ensures
        plain(a + b),
{
    let both = a + b;
    assert forall|i: int| 0 <= i < both.len() implies #[trigger] both[i] != '*' && both[i] != '?'
        && both[i] != '[' && both[i] != '\0' by {
        if i < a.len() {
            assert(both[i] == a[i]);
        } else {
            assert(both[i] == b[i - a.len()]);
        }
    }
}

proof fn lemma_plain_list(parts: Seq<Seq<char>>)
    requires
        forall|i: int| 0 <= i < parts.len() ==> plain(#[trigger] parts[i]),
    ensures
        plain(join(parts, " "@)),
    decreases parts.len(),
{
    reveal_strlit(" ");
    if parts.len() > 1 {
        let front = parts.drop_last();
        assert forall|i: int| 0 <= i < front.len() implies plain(#[trigger] front[i]) by {
            assert(front[i] == parts[i]);
        }
        lemma_plain_list(front);
        assert(plain(" "@));
        assert(plain(parts[parts.len() - 1]));
        lemma_plain_joined(join(front, " "@), " "@);
        lemma_plain_joined(join(front, " "@) + " "@, parts.last());
    } else if parts.len() == 1 {
        assert(plain(parts[0]));
    }
}

proof fn lemma_plain_hex(n: nat, width: nat)
    ensures
        plain(hex(n, width)),
    decreases width,
{
    if width > 0 {
        lemma_plain_hex(n / 16, (width - 1) as nat);
        let front = hex(n / 16, (width - 1) as nat);
        let all = hex(n, width);
        assert forall|i: int| 0 <= i < all.len() implies #[trigger] all[i] != '*' && all[i] != '?'
            && all[i] != '[' && all[i] != '\0' by {
            if i < front.len() {
                assert(all[i] == front[i]);
            }
        }
    }
}

proof fn lemma_plain_kind(kind: MemoryNodeKind)
    ensures
        plain(kind.name() + ":"@),
{
    reveal_strlit("episode");
    reveal_strlit("fact");
    reveal_strlit("entity_cue");
    reveal_strlit("tag");
    reveal_strlit("procedure");
    reveal_strlit("state");
    reveal_strlit("gotcha");
    reveal_strlit("anti_memory");
    reveal_strlit("topic");
    reveal_strlit(":");
    assert(plain(kind.name()));
    assert(plain(":"@));
    lemma_plain_joined(kind.name(), ":"@);
}

/// The key of a memory stands for itself in a pattern.
pub proof fn keys_stand_for_themselves(kind: MemoryNodeKind, text: Seq<char>)
    ensures
        plain(canonical_key_of(kind.name(), text)),
{
    let normal = normal_form(text);
    let found = top_terms_of(normal, 12);
    let compact = join(found, " "@);
    lemma_plain_kind(kind);
    if compact.len() == 0 {
        reveal_strlit("empty");
        reveal_strlit("_");
        let parts = seq![normal];
        let digest = hex(crate::text::fnv_texts(parts) as nat, 16);
        lemma_plain_hex(crate::text::fnv_texts(parts) as nat, 16);
        assert(plain("empty"@));
        assert(plain("_"@));
        lemma_plain_joined("empty"@, "_"@);
        lemma_plain_joined("empty"@ + "_"@, digest);
        lemma_plain_joined(kind.name() + ":"@, stable_id_of("empty"@, parts));
    } else {
        terms_have_the_shape_of_terms(normal);
        let all = terms_of(normal);
        let sorted = ranked::<String, ByTermWeight>(all);
        assert forall|i: int| 0 <= i < found.len() implies plain(#[trigger] found[i]) by {
            assert(sorted.contains(found[i])) by {
                assert(sorted[i] == found[i]);
            }
            lemma_ranked_contains::<String, ByTermWeight>(all, found[i]);
            let k = choose|k: int| 0 <= k < all.len() && all[k] == found[i];
            assert(is_term(all[k]));
            let t = found[i];
            assert forall|j: int| 0 <= j < t.len() implies #[trigger] t[j] != '*' && t[j] != '?'
                && t[j] != '[' && t[j] != '\0' by {
                assert(plain_char(t[j]));
            }
        }
        lemma_plain_list(found);
        lemma_plain_joined(kind.name() + ":"@, compact);
    }
}

} // verus!
