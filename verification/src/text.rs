//! Text primitives: Unicode character classes, word splitting and the
//! normalization every comparison of the resolver goes through.
use vstd::prelude::*;

verus! {

// ------------------------------------------------------------------
// Character classes and case mapping (std)
// ------------------------------------------------------------------

/// What `str::to_lowercase` returns for text that is not all ASCII.
pub uninterp spec fn non_ascii_lowercase(s: Seq<char>) -> Seq<char>;

/// Whether `char::is_alphanumeric` holds of a character beyond ASCII.
pub uninterp spec fn non_ascii_alphanumeric(c: char) -> bool;

/// `char::is_alphanumeric`: Unicode Alphabetic or Numeric.
pub open spec fn alphanumeric(c: char) -> bool {
    if is_ascii_char(c) {
        ascii_letter_or_digit(c)
    } else {
        non_ascii_alphanumeric(c)
    }
}

/// `char::is_whitespace`: the characters with the Unicode White_Space
/// property (tab through carriage return, space, next line, no-break space,
/// Ogham space mark, the spaces U+2000 to U+200A, the line and paragraph
/// separators, narrow no-break space, medium mathematical space and
/// ideographic space).
pub open spec fn whitespace(c: char) -> bool {
    ||| ('\t' <= c && c <= '\r')
    ||| c == ' '
    ||| c == '\u{85}'
    ||| c == '\u{A0}'
    ||| c == '\u{1680}'
    ||| ('\u{2000}' <= c && c <= '\u{200A}')
    ||| c == '\u{2028}'
    ||| c == '\u{2029}'
    ||| c == '\u{202F}'
    ||| c == '\u{205F}'
    ||| c == '\u{3000}'
}

pub open spec fn is_ascii_char(c: char) -> bool {
    (c as u32) < 128
}

pub open spec fn is_ascii_text(s: Seq<char>) -> bool {
    forall|i: int| 0 <= i < s.len() ==> is_ascii_char(#[trigger] s[i])
}

pub open spec fn ascii_letter_or_digit(c: char) -> bool {
    ||| ('a' <= c && c <= 'z')
    ||| ('A' <= c && c <= 'Z')
    ||| ('0' <= c && c <= '9')
}

pub open spec fn ascii_lower(c: char) -> char {
    if 'A' <= c && c <= 'Z' {
        ((c as u32) + 32) as char
    } else {
        c
    }
}

/// `str::to_lowercase`: the Unicode lowercase mapping of the whole text.
pub open spec fn lowercase_of(s: Seq<char>) -> Seq<char> {
    if is_ascii_text(s) {
        s.map_values(|c: char| ascii_lower(c))
    } else {
        non_ascii_lowercase(s)
    }
}

/// `str::to_lowercase`: the Unicode lowercase mapping of the whole string.
/// Claimed: on ASCII text it maps each of `A`..`Z` to its lowercase letter and
/// keeps every other character; on other text the result is a function of the
/// input alone.
#[verifier::external_body]
fn to_lowercase(s: &str) -> (r: String)
    ensures
        r@ == (if is_ascii_text(s@) {
            s@.map_values(|c: char| ascii_lower(c))
        } else {
            non_ascii_lowercase(s@)
        }),
{
    s.to_lowercase()
}

/// `char::is_alphanumeric` (Unicode Alphabetic or Numeric).
/// Claimed: on ASCII it holds exactly of letters and digits; beyond ASCII it
/// is a function of the character alone.
#[verifier::external_body]
fn is_alphanumeric(c: char) -> (b: bool)
    ensures
        b == (if is_ascii_char(c) {
            ascii_letter_or_digit(c)
        } else {
            non_ascii_alphanumeric(c)
        }),
{
    c.is_alphanumeric()
}

/// Whether a character has the Unicode White_Space property, as
/// `char::is_whitespace` decides.
pub(crate) fn is_whitespace(c: char) -> (b: bool)
    ensures
        b == whitespace(c),
{
    ('\t' <= c && c <= '\r') || c == ' ' || c == '\u{85}' || c == '\u{A0}' || c == '\u{1680}'
        || ('\u{2000}' <= c && c <= '\u{200A}') || c == '\u{2028}' || c == '\u{2029}' || c
        == '\u{202F}' || c == '\u{205F}' || c == '\u{3000}'
}

/// `String::push`: appends one character.
#[verifier::external_body]
pub(crate) fn push_char(s: &mut String, c: char)
    ensures
        final(s)@ == old(s)@.push(c),
{
    s.push(c)
}

// ------------------------------------------------------------------
// Words
// ------------------------------------------------------------------

/// The characters that end a word during normalization: everything that is
/// not alphanumeric, and whitespace.
pub open spec fn normalize_separator() -> spec_fn(char) -> bool {
    |c: char| !alphanumeric(c) || whitespace(c)
}

/// The characters that separate words in `split_whitespace`.
pub open spec fn whitespace_separator() -> spec_fn(char) -> bool {
    |c: char| whitespace(c)
}

/// The maximal runs of non-separator characters of `s`, in order.
pub open spec fn words_by(s: Seq<char>, sep: spec_fn(char) -> bool) -> Seq<Seq<char>>
    decreases s.len(),
{
    if s.len() == 0 {
        seq![]
    } else {
        let prev = words_by(s.drop_last(), sep);
        let c = s.last();
        if sep(c) {
            prev
        } else if s.len() > 1 && !sep(s[s.len() - 2]) {
            prev.update(prev.len() - 1, prev.last().push(c))
        } else {
            prev.push(seq![c])
        }
    }
}

/// The words of `s` as `str::split_whitespace` yields them.
pub open spec fn words(s: Seq<char>) -> Seq<Seq<char>> {
    words_by(s, whitespace_separator())
}

/// Words joined with a single space between neighbours.
pub open spec fn join_words(ws: Seq<Seq<char>>) -> Seq<char>
    decreases ws.len(),
{
    if ws.len() == 0 {
        seq![]
    } else if ws.len() == 1 {
        ws[0]
    } else {
        join_words(ws.drop_last()) + seq![' '] + ws.last()
    }
}

/// `normalize_text`: lowercase, turn every non-alphanumeric character into a
/// space, and rejoin the words with single spaces.
pub open spec fn normalized(text: Seq<char>) -> Seq<char> {
    join_words(words_by(lowercase_of(text), normalize_separator()))
}

/// A word is non-empty and holds no separator.
pub open spec fn proper_word(w: Seq<char>, sep: spec_fn(char) -> bool) -> bool {
    w.len() > 0 && forall|k: int| 0 <= k < w.len() ==> !sep(#[trigger] w[k])
}

/// Text in the shape `normalize_text` produces: words of alphanumeric,
/// non-whitespace characters separated by single spaces, with no space at
/// either end.
pub open spec fn single_spaced(r: Seq<char>) -> bool {
    &&& forall|i: int|
        0 <= i < r.len() ==> (#[trigger] r[i] == ' ' || (alphanumeric(r[i]) && !whitespace(r[i])))
    &&& r.len() > 0 ==> r[0] != ' ' && r[r.len() - 1] != ' '
    &&& forall|i: int| 0 <= i < r.len() - 1 && #[trigger] r[i] == ' ' ==> r[i + 1] != ' '
}

pub proof fn lemma_words_proper(s: Seq<char>, sep: spec_fn(char) -> bool)
    ensures
        forall|k: int|
            0 <= k < words_by(s, sep).len() ==> proper_word(#[trigger] words_by(s, sep)[k], sep),
        s.len() > 0 && !sep(s.last()) ==> words_by(s, sep).len() > 0,
    decreases s.len(),
{
    if s.len() > 0 {
        let p = s.drop_last();
        lemma_words_proper(p, sep);
        let prev = words_by(p, sep);
        let c = s.last();
        if !sep(c) && s.len() > 1 && !sep(s[s.len() - 2]) {
            assert(p.last() == s[s.len() - 2]);
            let w = prev.last().push(c);
            assert(proper_word(prev[prev.len() - 1], sep));
            assert forall|k: int| 0 <= k < w.len() implies !sep(#[trigger] w[k]) by {
                if k < w.len() - 1 {
                    assert(w[k] == prev[prev.len() - 1][k]);
                }
            }
        } else if !sep(c) {
            let w = seq![c];
            assert(proper_word(w, sep));
            assert(words_by(s, sep) == prev.push(w));
        }
    }
}

pub proof fn lemma_join_extend(ws: Seq<Seq<char>>, c: char)
    requires
        ws.len() > 0,
    ensures
        join_words(ws.update(ws.len() - 1, ws.last().push(c))) == join_words(ws).push(c),
{
    let ws2 = ws.update(ws.len() - 1, ws.last().push(c));
    if ws.len() > 1 {
        assert(ws2.drop_last() =~= ws.drop_last());
        assert(join_words(ws2) == join_words(ws2.drop_last()) + seq![' '] + ws2.last());
        assert(join_words(ws2) =~= join_words(ws).push(c));
    }
}

pub proof fn lemma_join_push(ws: Seq<Seq<char>>, w: Seq<char>)
    ensures
        ws.len() > 0 ==> join_words(ws.push(w)) == join_words(ws) + seq![' '] + w,
        ws.len() == 0 ==> join_words(ws.push(w)) == w,
{
    assert(ws.push(w).drop_last() =~= ws);
}

pub proof fn lemma_join_nonempty(ws: Seq<Seq<char>>, sep: spec_fn(char) -> bool)
    requires
        forall|k: int| 0 <= k < ws.len() ==> proper_word(#[trigger] ws[k], sep),
    ensures
        (join_words(ws).len() > 0) == (ws.len() > 0),
    decreases ws.len(),
{
    if ws.len() > 1 {
        assert(proper_word(ws[ws.len() - 1], sep));
    } else if ws.len() == 1 {
        assert(proper_word(ws[0], sep));
    }
}

/// Joining proper words of the normalization alphabet gives single-spaced text.
pub proof fn lemma_join_single_spaced(ws: Seq<Seq<char>>)
    requires
        forall|k: int| 0 <= k < ws.len() ==> proper_word(#[trigger] ws[k], normalize_separator()),
    ensures
        single_spaced(join_words(ws)),
    decreases ws.len(),
{
    let sep = normalize_separator();
    if ws.len() == 1 {
        assert(proper_word(ws[0], sep));
        let w = ws[0];
        assert forall|i: int| 0 <= i < w.len() implies (#[trigger] w[i] == ' ' || (alphanumeric(w[i])
            && !whitespace(w[i]))) by {
            assert(!sep(w[i]));
        }
        assert forall|i: int| 0 <= i < w.len() - 1 && #[trigger] w[i] == ' ' implies w[i + 1]
            != ' ' by {
            assert(!sep(w[i]));
        }
    } else if ws.len() > 1 {
        let p = ws.drop_last();
        lemma_join_single_spaced(p);
        lemma_join_nonempty(p, sep);
        let a = join_words(p);
        let w = ws.last();
        assert(proper_word(ws[ws.len() - 1], sep));
        let r = join_words(ws);
        assert(r == a + seq![' '] + w);
        assert(w.len() > 0);
        assert(!sep(w[0]));
        assert(!sep(w[w.len() - 1]));
        assert forall|i: int| 0 <= i < r.len() implies (#[trigger] r[i] == ' ' || (alphanumeric(r[i])
            && !whitespace(r[i]))) by {
            if i < a.len() {
                assert(r[i] == a[i]);
            } else if i > a.len() {
                assert(r[i] == w[i - a.len() - 1]);
                assert(!sep(w[i - a.len() - 1]));
            }
        }
        assert(r[r.len() - 1] == w[w.len() - 1]);
        assert(r[0] == a[0]);
        assert forall|i: int| 0 <= i < r.len() - 1 && #[trigger] r[i] == ' ' implies r[i + 1]
            != ' ' by {
            if i < a.len() - 1 {
                assert(r[i] == a[i]);
                assert(r[i + 1] == a[i + 1]);
            } else if i == a.len() - 1 {
                assert(r[i] == a[a.len() - 1]);
            } else if i == a.len() {
                assert(r[i + 1] == w[0]);
            } else {
                assert(r[i] == w[i - a.len() - 1]);
                assert(!sep(w[i - a.len() - 1]));
            }
        }
    }
}

/// Words keep a property that every character of the text has.
proof fn lemma_words_keep(s: Seq<char>, sep: spec_fn(char) -> bool, p: spec_fn(char) -> bool)
    requires
        forall|i: int| 0 <= i < s.len() ==> p(#[trigger] s[i]),
    ensures
        forall|k: int, m: int|
            0 <= k < words_by(s, sep).len() && 0 <= m < words_by(s, sep)[k].len() ==> p(
                #[trigger] words_by(s, sep)[k][m],
            ),
    decreases s.len(),
{
    if s.len() > 0 {
        let d = s.drop_last();
        lemma_words_keep(d, sep, p);
        let prev = words_by(d, sep);
        let c = s.last();
        assert(p(s[s.len() - 1]));
        if !sep(c) && s.len() > 1 && !sep(s[s.len() - 2]) {
            lemma_words_proper(d, sep);
            assert(d.last() == s[s.len() - 2]);
            assert(prev.len() > 0);
            let w = prev.last().push(c);
            assert(words_by(s, sep) == prev.update(prev.len() - 1, w));
            assert forall|k: int, m: int|
                0 <= k < words_by(s, sep).len() && 0 <= m < words_by(s, sep)[k].len() implies p(
                #[trigger] words_by(s, sep)[k][m],
            ) by {
                if k == prev.len() - 1 && m < w.len() - 1 {
                    assert(words_by(s, sep)[k][m] == prev[k][m]);
                } else if k == prev.len() - 1 {
                    assert(words_by(s, sep)[k][m] == c);
                } else if k < prev.len() - 1 {
                    assert(words_by(s, sep)[k] == prev[k]);
                }
            }
        } else if !sep(c) {
            assert forall|k: int, m: int|
                0 <= k < words_by(s, sep).len() && 0 <= m < words_by(s, sep)[k].len() implies p(
                #[trigger] words_by(s, sep)[k][m],
            ) by {
                if k < prev.len() {
                    assert(words_by(s, sep)[k] == prev[k]);
                }
            }
        }
    }
}

/// Joined words keep a property that every character of every word has, and
/// that the space has.
proof fn lemma_join_keeps(ws: Seq<Seq<char>>, p: spec_fn(char) -> bool)
    requires
        p(' '),
        forall|k: int, m: int| 0 <= k < ws.len() && 0 <= m < ws[k].len() ==> p(#[trigger] ws[k][m]),
    ensures
        forall|i: int| 0 <= i < join_words(ws).len() ==> p(#[trigger] join_words(ws)[i]),
    decreases ws.len(),
{
    if ws.len() == 1 {
        assert forall|i: int| 0 <= i < join_words(ws).len() implies p(#[trigger] join_words(ws)[i]) by {
            assert(join_words(ws)[i] == ws[0][i]);
        }
    } else if ws.len() > 1 {
        let d = ws.drop_last();
        lemma_join_keeps(d, p);
        let a = join_words(d);
        let w = ws.last();
        assert forall|i: int| 0 <= i < join_words(ws).len() implies p(#[trigger] join_words(ws)[i]) by {
            if i < a.len() {
                assert(join_words(ws)[i] == a[i]);
            } else if i > a.len() {
                assert(join_words(ws)[i] == ws[ws.len() - 1][i - a.len() - 1]);
            }
        }
    }
}

/// Appending a proper word to text that is empty or ends in a separator adds
/// exactly that word.
proof fn lemma_words_append_word(s: Seq<char>, w: Seq<char>, sep: spec_fn(char) -> bool)
    requires
        proper_word(w, sep),
        s.len() > 0 ==> sep(s.last()),
    ensures
        words_by(s + w, sep) == words_by(s, sep).push(w),
    decreases w.len(),
{
    if w.len() == 1 {
        assert((s + w).drop_last() =~= s);
        assert(w =~= seq![w[0]]);
        if s.len() > 0 {
            assert((s + w)[(s + w).len() - 2] == s.last());
        }
    } else {
        let v = w.drop_last();
        assert(proper_word(v, sep)) by {
            assert forall|k: int| 0 <= k < v.len() implies !sep(#[trigger] v[k]) by {
                assert(v[k] == w[k]);
            }
        }
        lemma_words_append_word(s, v, sep);
        assert((s + w).drop_last() =~= s + v);
        assert((s + w)[(s + w).len() - 2] == w[w.len() - 2]);
        assert(!sep(w[w.len() - 2]));
        assert(!sep(w[w.len() - 1]));
        let prev = words_by(s, sep).push(v);
        assert(prev.update(prev.len() - 1, prev.last().push(w.last())) =~= words_by(s, sep).push(
            w,
        )) by {
            assert(v.push(w.last()) =~= w);
        }
    }
}

/// Splitting joined proper words gives the words back.
pub proof fn lemma_words_of_join(ws: Seq<Seq<char>>, sep: spec_fn(char) -> bool)
    requires
        sep(' '),
        forall|k: int| 0 <= k < ws.len() ==> proper_word(#[trigger] ws[k], sep),
    ensures
        words_by(join_words(ws), sep) == ws,
    decreases ws.len(),
{
    if ws.len() == 0 {
        assert(words_by(join_words(ws), sep) =~= ws);
    } else if ws.len() == 1 {
        assert(proper_word(ws[0], sep));
        lemma_words_append_word(Seq::empty(), ws[0], sep);
        assert(Seq::<char>::empty() + ws[0] =~= ws[0]);
        assert(Seq::<Seq<char>>::empty().push(ws[0]) =~= ws);
    } else {
        let d = ws.drop_last();
        lemma_words_of_join(d, sep);
        let a = join_words(d) + seq![' '];
        assert(a.drop_last() =~= join_words(d));
        assert(words_by(a, sep) == words_by(join_words(d), sep));
        assert(proper_word(ws[ws.len() - 1], sep));
        lemma_words_append_word(a, ws.last(), sep);
        assert(d.push(ws.last()) =~= ws);
    }
}

/// Lowercase ASCII text and the space: what normalizing ASCII text yields.
pub open spec fn lower_ascii(c: char) -> bool {
    is_ascii_char(c) && !('A' <= c && c <= 'Z')
}

/// Normalizing a second time changes nothing wherever lowercasing leaves the
/// normalized text as it is.
pub proof fn law_normalize_idempotent_where_lowercase_keeps(text: Seq<char>)
    requires
        lowercase_of(normalized(text)) == normalized(text),
    ensures
        normalized(normalized(text)) == normalized(text),
{
    let sep = normalize_separator();
    let low = lowercase_of(text);
    lemma_words_proper(low, sep);
    lemma_words_of_join(words_by(low, sep), sep);
}

/// Normalizing ASCII text a second time changes nothing.
pub proof fn law_normalize_ascii_idempotent(text: Seq<char>)
    requires
        is_ascii_text(text),
    ensures
        normalized(normalized(text)) == normalized(text),
{
    let r = normalized(text);
    law_normalized_ascii_is_lowercase(text);
    assert(is_ascii_text(r)) by {
        assert forall|i: int| 0 <= i < r.len() implies is_ascii_char(#[trigger] r[i]) by {
            assert(lower_ascii(r[i]));
        }
    }
    assert(lowercase_of(r) =~= r) by {
        assert forall|i: int| 0 <= i < r.len() implies #[trigger] lowercase_of(r)[i] == r[i] by {
            assert(lower_ascii(r[i]));
        }
    }
    law_normalize_idempotent_where_lowercase_keeps(text);
}

/// Normalized ASCII text is ASCII with no uppercase letter: lowercase letters,
/// digits and single spaces.
pub proof fn law_normalized_ascii_is_lowercase(text: Seq<char>)
    requires
        is_ascii_text(text),
    ensures
        forall|i: int|
            0 <= i < normalized(text).len() ==> {
                let c = #[trigger] normalized(text)[i];
                c == ' ' || ('a' <= c && c <= 'z') || ('0' <= c && c <= '9')
            },
{
    let sep = normalize_separator();
    let low = lowercase_of(text);
    let p = |c: char| lower_ascii(c);
    assert forall|i: int| 0 <= i < low.len() implies p(#[trigger] low[i]) by {
        let c = text[i];
        assert(is_ascii_char(c));
        if 'A' <= c && c <= 'Z' {
            assert(low[i] == ((c as u32) + 32) as char);
        }
    }
    let ws = words_by(low, sep);
    lemma_words_keep(low, sep, p);
    lemma_join_keeps(ws, p);
    lemma_words_proper(low, sep);
    lemma_join_single_spaced(ws);
    let r = join_words(ws);
    assert forall|i: int| 0 <= i < r.len() implies {
        let c = #[trigger] r[i];
        c == ' ' || ('a' <= c && c <= 'z') || ('0' <= c && c <= '9')
    } by {
        assert(p(r[i]));
        assert(r[i] == ' ' || (alphanumeric(r[i]) && !whitespace(r[i])));
    }
}

/// Splitting normalized text at whitespace gives back exactly the words that
/// normalization kept.
pub proof fn law_normalized_words(text: Seq<char>)
    ensures
        words(normalized(text)) == words_by(lowercase_of(text), normalize_separator()),
{
    let low = lowercase_of(text);
    let ws = words_by(low, normalize_separator());
    lemma_words_proper(low, normalize_separator());
    assert forall|k: int| 0 <= k < ws.len() implies proper_word(
        #[trigger] ws[k],
        whitespace_separator(),
    ) by {
        assert(proper_word(ws[k], normalize_separator()));
        assert forall|m: int| 0 <= m < ws[k].len() implies !whitespace_separator()(
            #[trigger] ws[k][m],
        ) by {
            assert(!normalize_separator()(ws[k][m]));
        }
    }
    lemma_words_of_join(ws, whitespace_separator());
}

// ------------------------------------------------------------------
// Executable text operations
// ------------------------------------------------------------------

/// The characters of a string slice, in order.
pub(crate) fn chars_of(s: &str) -> (v: Vec<char>)
    ensures
        v@ == s@,
{
    let mut v: Vec<char> = Vec::new();
    for c in iter: s.chars()
        invariant
            v@ == iter.seq().take(iter.index()),
    {
        v.push(c);
    }
    v
}

/// A `String` holding the given characters.
pub(crate) fn string_of(v: &Vec<char>) -> (s: String)
    ensures
        s@ == v@,
{
    let mut s = String::new();
    let mut i: usize = 0;
    while i < v.len()
        invariant
            i <= v.len(),
            s@ == v@.take(i as int),
        decreases v.len() - i,
    {
        push_char(&mut s, v[i]);
        i += 1;
        assert(s@ =~= v@.take(i as int));
    }
    assert(v@.take(v.len() as int) =~= v@);
    s
}

/// Character-wise equality of two character sequences.
pub(crate) fn same_chars(a: &Vec<char>, b: &Vec<char>) -> (r: bool)
    ensures
        r == (a@ == b@),
{
    if a.len() != b.len() {
        return false;
    }
    let mut i: usize = 0;
    while i < a.len()
        invariant
            i <= a.len(),
            a.len() == b.len(),
            forall|k: int| 0 <= k < i ==> a@[k] == b@[k],
        decreases a.len() - i,
    {
        if a[i] != b[i] {
            return false;
        }
        i += 1;
    }
    assert(a@ =~= b@);
    true
}

/// The normalized characters of `text`.
pub(crate) fn normalize_chars(text: &str) -> (r: Vec<char>)
    ensures
        r@ == normalized(text@),
        single_spaced(r@),
{
    let lowered = to_lowercase(text);
    let low = chars_of(lowered.as_str());
    let ghost sep = normalize_separator();
    let mut r: Vec<char> = Vec::new();
    let mut in_word = false;
    let mut i: usize = 0;
    proof {
        assert(low@.take(0) =~= Seq::<char>::empty());
    }
    while i < low.len()
        invariant
            sep == normalize_separator(),
            low@ == lowercase_of(text@),
            i <= low.len(),
            r@ == join_words(words_by(low@.take(i as int), sep)),
            in_word == (i > 0 && !sep(low@[i - 1])),
            forall|k: int|
                0 <= k < words_by(low@.take(i as int), sep).len() ==> proper_word(
                    #[trigger] words_by(low@.take(i as int), sep)[k],
                    sep,
                ),
            in_word ==> words_by(low@.take(i as int), sep).len() > 0,
            (r@.len() > 0) == (words_by(low@.take(i as int), sep).len() > 0),
        decreases low.len() - i,
    {
        let c = low[i];
        let ghost p = low@.take(i as int);
        let ghost s = low@.take(i + 1);
        proof {
            assert(s.drop_last() =~= p);
            assert(s.last() == c);
            if i > 0 {
                assert(s[s.len() - 2] == low@[i - 1]);
            }
            lemma_words_proper(s, sep);
        }
        let separator = !is_alphanumeric(c) || is_whitespace(c);
        if separator {
            in_word = false;
        } else if in_word {
            proof {
                lemma_join_extend(words_by(p, sep), c);
            }
            r.push(c);
        } else {
            proof {
                lemma_join_push(words_by(p, sep), seq![c]);
            }
            if r.len() > 0 {
                r.push(' ');
            }
            r.push(c);
            in_word = true;
            proof {
                assert(r@ =~= join_words(words_by(s, sep)));
            }
        }
        i += 1;
        proof {
            lemma_join_nonempty(words_by(s, sep), sep);
        }
    }
    proof {
        assert(low@.take(low.len() as int) =~= low@);
        lemma_join_single_spaced(words_by(low@, sep));
    }
    r
}

/// Lowercases `text`, replaces every character that is not alphanumeric with
/// a space, and joins the remaining words with single spaces.
pub fn normalize_text(text: &str) -> (r: String)
    ensures
        r@ == normalized(text@),
        single_spaced(r@),
        is_ascii_text(text@) ==> forall|i: int|
            0 <= i < r@.len() ==> {
                let c = #[trigger] r@[i];
                c == ' ' || ('a' <= c && c <= 'z') || ('0' <= c && c <= '9')
            },
        is_ascii_text(text@) ==> normalized(r@) == r@,
{
    proof {
        if is_ascii_text(text@) {
            law_normalized_ascii_is_lowercase(text@);
            law_normalize_ascii_idempotent(text@);
        }
    }
    let v = normalize_chars(text);
    string_of(&v)
}

/// The views of a list of character vectors.
pub open spec fn views(ws: Seq<Vec<char>>) -> Seq<Seq<char>> {
    ws.map_values(|w: Vec<char>| w@)
}

/// The words of `s`, split at whitespace.
pub(crate) fn split_words(s: &Vec<char>) -> (ws: Vec<Vec<char>>)
    ensures
        views(ws@) == words(s@),
{
    let ghost sep = whitespace_separator();
    let mut done: Vec<Vec<char>> = Vec::new();
    let mut cur: Vec<char> = Vec::new();
    let mut in_word = false;
    let mut i: usize = 0;
    proof {
        assert(s@.take(0) =~= Seq::<char>::empty());
        assert(views(done@) =~= Seq::<Seq<char>>::empty());
    }
    while i < s.len()
        invariant
            sep == whitespace_separator(),
            i <= s.len(),
            in_word == (i > 0 && !sep(s@[i - 1])),
            in_word ==> words_by(s@.take(i as int), sep) == views(done@).push(cur@),
            !in_word ==> words_by(s@.take(i as int), sep) == views(done@),
        decreases s.len() - i,
    {
        let c = s[i];
        let ghost p = s@.take(i as int);
        let ghost t = s@.take(i + 1);
        proof {
            assert(t.drop_last() =~= p);
            assert(t.last() == c);
            if i > 0 {
                assert(t[t.len() - 2] == s@[i - 1]);
            }
        }
        if is_whitespace(c) {
            if in_word {
                let ghost before = views(done@);
                let w = cur;
                cur = Vec::new();
                done.push(w);
                proof {
                    assert(views(done@) =~= before.push(w@));
                }
            }
            in_word = false;
        } else if in_word {
            let ghost before = views(done@).push(cur@);
            cur.push(c);
            proof {
                assert(views(done@).push(cur@) =~= before.update(
                    before.len() - 1,
                    before.last().push(c),
                ));
            }
        } else {
            cur = Vec::new();
            cur.push(c);
            in_word = true;
            proof {
                assert(cur@ =~= seq![c]);
            }
        }
        i += 1;
    }
    if in_word {
        let ghost before = views(done@);
        let w = cur;
        done.push(w);
        proof {
            assert(views(done@) =~= before.push(w@));
        }
    }
    proof {
        assert(s@.take(s.len() as int) =~= s@);
    }
    done
}

// ------------------------------------------------------------------
// Prefixes and substrings
// ------------------------------------------------------------------

/// `s` begins with `p`.
pub open spec fn starts_with(s: Seq<char>, p: Seq<char>) -> bool {
    p.len() <= s.len() && s.subrange(0, p.len() as int) == p
}

/// `p` occurs in `s` at position `i`.
pub open spec fn occurs_at(s: Seq<char>, p: Seq<char>, i: int) -> bool {
    0 <= i && i + p.len() <= s.len() && s.subrange(i, i + p.len()) == p
}

/// `p` occurs somewhere in `s` (the empty sequence occurs in every text).
pub open spec fn contains(s: Seq<char>, p: Seq<char>) -> bool {
    exists|i: int| occurs_at(s, p, i)
}

fn matches_at(s: &Vec<char>, p: &Vec<char>, i: usize) -> (r: bool)
    requires
        i + p.len() <= s.len(),
    ensures
        r == occurs_at(s@, p@, i as int),
{
    let mut k: usize = 0;
    while k < p.len()
        invariant
            k <= p.len(),
            i + p.len() <= s.len(),
            forall|t: int| 0 <= t < k ==> s@[i + t] == p@[t],
        decreases p.len() - k,
    {
        if s[i + k] != p[k] {
            assert(s@.subrange(i as int, i + p.len())[k as int] != p@[k as int]);
            return false;
        }
        k += 1;
    }
    assert(s@.subrange(i as int, i + p.len()) =~= p@);
    true
}

/// Whether `s` begins with `p`.
pub(crate) fn starts_with_chars(s: &Vec<char>, p: &Vec<char>) -> (r: bool)
    ensures
        r == starts_with(s@, p@),
{
    if p.len() > s.len() {
        return false;
    }
    matches_at(s, p, 0)
}

/// Whether `p` occurs in `s`.
pub(crate) fn contains_chars(s: &Vec<char>, p: &Vec<char>) -> (r: bool)
    ensures
        r == contains(s@, p@),
{
    if p.len() > s.len() {
        return false;
    }
    let last = s.len() - p.len();
    let mut i: usize = 0;
    loop
        invariant_except_break
            i <= last,
        invariant
            last == s.len() - p.len(),
            p.len() <= s.len(),
            forall|j: int| 0 <= j < i ==> !occurs_at(s@, p@, j),
        ensures
            i == last,
            forall|j: int| 0 <= j <= i ==> !occurs_at(s@, p@, j),
        decreases last - i,
    {
        if matches_at(s, p, i) {
            return true;
        }
        if i == last {
            break ;
        }
        i += 1;
    }
    assert forall|j: int| !occurs_at(s@, p@, j) by {
        if 0 <= j && j + p.len() <= s.len() {
            assert(j <= i);
        }
    }
    false
}

} // verus!
