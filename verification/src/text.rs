//! The text normalizer: bodies are un-escaped, lowercased, stripped of
//! punctuation, split on whitespace, and filtered against a stopword set.
//! Every step has a specification over `Seq<char>` and a verified
//! implementation over `Vec<char>`.

use vstd::prelude::*;
use vstd::string::StrSliceExecFns;

verus! {

/// The characters of the Unicode `White_Space` property, which is what
/// `str::split_whitespace` splits on.
pub open spec fn is_space(c: char) -> bool {
    ||| c == '\u{0009}'
    ||| c == '\u{000A}'
    ||| c == '\u{000B}'
    ||| c == '\u{000C}'
    ||| c == '\u{000D}'
    ||| c == ' '
    ||| c == '\u{0085}'
    ||| c == '\u{00A0}'
    ||| c == '\u{1680}'
    ||| c == '\u{2000}'
    ||| c == '\u{2001}'
    ||| c == '\u{2002}'
    ||| c == '\u{2003}'
    ||| c == '\u{2004}'
    ||| c == '\u{2005}'
    ||| c == '\u{2006}'
    ||| c == '\u{2007}'
    ||| c == '\u{2008}'
    ||| c == '\u{2009}'
    ||| c == '\u{200A}'
    ||| c == '\u{2028}'
    ||| c == '\u{2029}'
    ||| c == '\u{202F}'
    ||| c == '\u{205F}'
    ||| c == '\u{3000}'
}

/// Whether `c` is a Unicode whitespace character.
pub fn is_space_char(c: char) -> (r: bool)
    ensures
        r == is_space(c),
{
    c == '\u{0009}' || c == '\u{000A}' || c == '\u{000B}' || c == '\u{000C}' || c == '\u{000D}'
        || c == ' ' || c == '\u{0085}' || c == '\u{00A0}' || c == '\u{1680}' || c == '\u{2000}'
        || c == '\u{2001}' || c == '\u{2002}' || c == '\u{2003}' || c == '\u{2004}'
        || c == '\u{2005}' || c == '\u{2006}' || c == '\u{2007}' || c == '\u{2008}'
        || c == '\u{2009}' || c == '\u{200A}' || c == '\u{2028}' || c == '\u{2029}'
        || c == '\u{202F}' || c == '\u{205F}' || c == '\u{3000}'
}

/// The fixed punctuation set removed from bodies and from stopword lines.
/// It contains `$` so that bodies cannot inject the k-gram anchor, and `*`
/// so that bodies cannot inject the wildcard, plus a few typographic
/// quotation marks and the em dash.
pub open spec fn is_punct(c: char) -> bool {
    ||| c == '!'
    ||| c == '"'
    ||| c == '\''
    ||| c == '('
    ||| c == ')'
    ||| c == '*'
    ||| c == '+'
    ||| c == ','
    ||| c == '-'
    ||| c == '.'
    ||| c == '/'
    ||| c == ':'
    ||| c == ';'
    ||| c == '<'
    ||| c == '='
    ||| c == '>'
    ||| c == '?'
    ||| c == '@'
    ||| c == '['
    ||| c == '\\'
    ||| c == ']'
    ||| c == '^'
    ||| c == '_'
    ||| c == '`'
    ||| c == '{'
    ||| c == '|'
    ||| c == '}'
    ||| c == '~'
    ||| c == '$'
    ||| c == '%'
    ||| c == '&'
    ||| c == '\u{201D}'
    ||| c == '\u{2014}'
    ||| c == '\u{201C}'
    ||| c == '\u{2019}'
    ||| c == '\u{2018}'
}

/// Whether `c` is in the punctuation set.
pub fn is_punct_char(c: char) -> (r: bool)
    ensures
        r == is_punct(c),
{
    c == '!' || c == '"' || c == '\'' || c == '(' || c == ')' || c == '*' || c == '+' || c == ','
        || c == '-' || c == '.' || c == '/' || c == ':' || c == ';' || c == '<' || c == '='
        || c == '>' || c == '?' || c == '@' || c == '[' || c == '\\' || c == ']' || c == '^'
        || c == '_' || c == '`' || c == '{' || c == '|' || c == '}' || c == '~' || c == '$'
        || c == '%' || c == '&' || c == '\u{201D}' || c == '\u{2014}' || c == '\u{201C}'
        || c == '\u{2019}' || c == '\u{2018}'
}

/// ASCII case folding of one character.
pub open spec fn lower(c: char) -> char {
    if 'A' <= c && c <= 'Z' {
        (((c as u32) + 32) as u8) as char
    } else {
        c
    }
}

/// ASCII-lowercase one character.
pub fn lower_char(c: char) -> (r: char)
    ensures
        r == lower(c),
{
    if 'A' <= c && c <= 'Z' {
        (((c as u32) + 32) as u8) as char
    } else {
        c
    }
}

/// The escape sequence that stands for a newline in a corpus body.
pub open spec fn nl_pat() -> Seq<char> {
    seq!['[', 'N', 'E', 'W', 'L', 'I', 'N', 'E', ']']
}

/// The escape sequence that stands for a tab in a corpus body.
pub open spec fn tab_pat() -> Seq<char> {
    seq!['[', 'T', 'A', 'B', ']']
}

/// Expansion of the `[NEWLINE]` and `[TAB]` escapes, left to right.
pub open spec fn unescape(s: Seq<char>) -> Seq<char>
    decreases s.len(),
{
    if s.len() == 0 {
        Seq::empty()
    } else if s.len() >= 9 && s.subrange(0, 9) == nl_pat() {
        seq!['\n'] + unescape(s.skip(9))
    } else if s.len() >= 5 && s.subrange(0, 5) == tab_pat() {
        seq!['\t'] + unescape(s.skip(5))
    } else {
        seq![s[0]] + unescape(s.skip(1))
    }
}

/// ASCII case folding of a character sequence.
pub open spec fn lower_seq(s: Seq<char>) -> Seq<char> {
    s.map_values(|c: char| lower(c))
}

/// The sequence with the punctuation characters removed.
pub open spec fn depunct(s: Seq<char>) -> Seq<char>
    decreases s.len(),
{
    if s.len() == 0 {
        Seq::empty()
    } else if is_punct(s[0]) {
        depunct(s.skip(1))
    } else {
        seq![s[0]] + depunct(s.skip(1))
    }
}

/// The maximal non-empty runs of non-whitespace characters, left to right,
/// given the run `cur` accumulated so far.
pub open spec fn split_acc(s: Seq<char>, cur: Seq<char>) -> Seq<Seq<char>>
    decreases s.len(),
{
    if s.len() == 0 {
        if cur.len() == 0 {
            Seq::empty()
        } else {
            seq![cur]
        }
    } else if is_space(s[0]) {
        if cur.len() == 0 {
            split_acc(s.skip(1), Seq::empty())
        } else {
            seq![cur] + split_acc(s.skip(1), Seq::empty())
        }
    } else {
        split_acc(s.skip(1), cur.push(s[0]))
    }
}

/// The maximal non-empty runs of non-whitespace characters of `s`.
pub open spec fn split_ws(s: Seq<char>) -> Seq<Seq<char>> {
    split_acc(s, Seq::empty())
}

/// The tokens with the stopwords removed.
pub open spec fn drop_stops(toks: Seq<Seq<char>>, stops: Seq<Seq<char>>) -> Seq<Seq<char>>
    decreases toks.len(),
{
    if toks.len() == 0 {
        Seq::empty()
    } else if stops.contains(toks[0]) {
        drop_stops(toks.skip(1), stops)
    } else {
        seq![toks[0]] + drop_stops(toks.skip(1), stops)
    }
}

/// The stopword set: each stopword line with punctuation removed.
pub open spec fn clean_stops(lines: Seq<Seq<char>>) -> Seq<Seq<char>> {
    lines.map_values(|l: Seq<char>| depunct(l))
}

/// The full normalization pipeline: the tokens of a raw body.
pub open spec fn tokens_of(body: Seq<char>, stops: Seq<Seq<char>>) -> Seq<Seq<char>> {
    drop_stops(split_ws(depunct(lower_seq(unescape(body)))), stops)
}

/// The views of a sequence of character vectors.
pub open spec fn views(v: Seq<Vec<char>>) -> Seq<Seq<char>> {
    v.map_values(|x: Vec<char>| x@)
}

/// The characters of a string slice, as a vector.
pub fn chars_vec(s: &str) -> (r: Vec<char>)
    ensures
        r@ == s@,
{
    let n = s.unicode_len();
    let mut r: Vec<char> = Vec::new();
    let mut i: usize = 0;
    while i < n
        invariant
            n == s@.len(),
            i <= n,
            r@ == s@.take(i as int),
        decreases n - i,
    {
        let c = s.get_char(i);
        r.push(c);
        proof {
            assert(r@ =~= s@.take(i + 1));
        }
        i = i + 1;
    }
    proof {
        assert(s@.take(n as int) =~= s@);
    }
    r
}

/// Whether two character vectors hold the same characters.
pub fn eq_chars(a: &Vec<char>, b: &Vec<char>) -> (r: bool)
    ensures
        r == (a@ == b@),
{
    if a.len() != b.len() {
        proof {
            assert(a@ != b@);
        }
        return false;
    }
    let mut i: usize = 0;
    while i < a.len()
        invariant
            a@.len() == b@.len(),
            i <= a@.len(),
            forall|q: int| 0 <= q < i ==> a@[q] == b@[q],
        decreases a.len() - i,
    {
        if a[i] != b[i] {
            proof {
                assert(a@ != b@);
            }
            return false;
        }
        i = i + 1;
    }
    proof {
        assert(a@ =~= b@);
    }
    true
}

/// Expand the `[NEWLINE]` and `[TAB]` escapes in `s`.
pub fn unescape_vec(s: &Vec<char>) -> (r: Vec<char>)
    ensures
        r@ == unescape(s@),
{
    let mut r: Vec<char> = Vec::new();
    let mut i: usize = 0;
    proof {
        assert(s@.skip(0) =~= s@);
        assert(r@ + unescape(s@) =~= unescape(s@));
    }
    while i < s.len()
        invariant
            i <= s@.len(),
            unescape(s@) == r@ + unescape(s@.skip(i as int)),
        decreases s.len() - i,
    {
        let ghost rest = s@.skip(i as int);
        if s.len() - i >= 9 && s[i] == '[' && s[i + 1] == 'N' && s[i + 2] == 'E' && s[i + 3] == 'W'
            && s[i + 4] == 'L' && s[i + 5] == 'I' && s[i + 6] == 'N' && s[i + 7] == 'E'
            && s[i + 8] == ']' {
            r.push('\n');
            proof {
                assert(rest.subrange(0, 9) =~= nl_pat());
                assert(rest.skip(9) =~= s@.skip(i + 9));
                assert(unescape(rest) == seq!['\n'] + unescape(s@.skip(i + 9)));
                assert(r@ + unescape(s@.skip(i + 9)) =~= unescape(s@));
            }
            i = i + 9;
        } else if s.len() - i >= 5 && s[i] == '[' && s[i + 1] == 'T' && s[i + 2] == 'A'
            && s[i + 3] == 'B' && s[i + 4] == ']' {
            proof {
                if rest.len() >= 9 && rest.subrange(0, 9) == nl_pat() {
                    assert(rest.subrange(0, 9)[1] == 'N');
                    assert(rest[1] == 'N');
                    assert(false);
                }
            }
            r.push('\t');
            proof {
                assert(rest.subrange(0, 5) =~= tab_pat());
                assert(rest.skip(5) =~= s@.skip(i + 5));
                assert(unescape(rest) == seq!['\t'] + unescape(s@.skip(i + 5)));
                assert(r@ + unescape(s@.skip(i + 5)) =~= unescape(s@));
            }
            i = i + 5;
        } else {
            proof {
                if rest.len() >= 9 && rest.subrange(0, 9) == nl_pat() {
                    assert forall|q: int| 0 <= q < 9 implies rest[q] == nl_pat()[q] by {
                        assert(rest.subrange(0, 9)[q] == rest[q]);
                    }
                    assert(false);
                }
                if rest.len() >= 5 && rest.subrange(0, 5) == tab_pat() {
                    assert forall|q: int| 0 <= q < 5 implies rest[q] == tab_pat()[q] by {
                        assert(rest.subrange(0, 5)[q] == rest[q]);
                    }
                    assert(false);
                }
            }
            let c = s[i];
            r.push(c);
            proof {
                assert(rest.skip(1) =~= s@.skip(i + 1));
                assert(rest[0] == s@[i as int]);
                assert(unescape(rest) == seq![s@[i as int]] + unescape(s@.skip(i + 1)));
                assert(r@ + unescape(s@.skip(i + 1)) =~= unescape(s@));
            }
            i = i + 1;
        }
    }
    proof {
        assert(s@.skip(i as int) =~= Seq::<char>::empty());
        assert(unescape(s@.skip(i as int)) == Seq::<char>::empty());
        assert(r@ =~= unescape(s@));
    }
    r
}

/// ASCII-lowercase every character of `s`.
pub fn lower_vec(s: &Vec<char>) -> (r: Vec<char>)
    ensures
        r@ == lower_seq(s@),
{
    let mut r: Vec<char> = Vec::new();
    let mut i: usize = 0;
    while i < s.len()
        invariant
            i <= s@.len(),
            r@ == s@.take(i as int).map_values(|c: char| lower(c)),
        decreases s.len() - i,
    {
        let c = lower_char(s[i]);
        r.push(c);
        proof {
            assert(r@ =~= s@.take(i + 1).map_values(|c: char| lower(c)));
        }
        i = i + 1;
    }
    proof {
        assert(s@.take(i as int) =~= s@);
    }
    r
}

/// Remove the punctuation characters from `s`.
pub fn depunct_vec(s: &Vec<char>) -> (r: Vec<char>)
    ensures
        r@ == depunct(s@),
{
    let mut r: Vec<char> = Vec::new();
    let mut i: usize = 0;
    proof {
        assert(s@.skip(0) =~= s@);
        assert(r@ + depunct(s@) =~= depunct(s@));
    }
    while i < s.len()
        invariant
            i <= s@.len(),
            depunct(s@) == r@ + depunct(s@.skip(i as int)),
        decreases s.len() - i,
    {
        let ghost rest = s@.skip(i as int);
        proof {
            assert(rest[0] == s@[i as int]);
            assert(rest.skip(1) =~= s@.skip(i + 1));
        }
        if !is_punct_char(s[i]) {
            let c = s[i];
            r.push(c);
        }
        proof {
            assert(r@ + depunct(s@.skip(i + 1)) =~= depunct(s@));
        }
        i = i + 1;
    }
    proof {
        assert(s@.skip(i as int) =~= Seq::<char>::empty());
        assert(r@ =~= depunct(s@));
    }
    r
}

/// Split `s` into maximal non-empty runs of non-whitespace characters.
pub fn split_vec(s: &Vec<char>) -> (toks: Vec<Vec<char>>)
    ensures
        views(toks@) == split_ws(s@),
{
    let mut done: Vec<Vec<char>> = Vec::new();
    let mut cur: Vec<char> = Vec::new();
    let mut i: usize = 0;
    proof {
        assert(s@.skip(0) =~= s@);
        assert(cur@ =~= Seq::<char>::empty());
        assert(views(done@) + split_acc(s@, cur@) =~= split_acc(s@, Seq::empty()));
    }
    while i < s.len()
        invariant
            i <= s@.len(),
            split_ws(s@) == views(done@) + split_acc(s@.skip(i as int), cur@),
        decreases s.len() - i,
    {
        let ghost rest = s@.skip(i as int);
        proof {
            assert(rest[0] == s@[i as int]);
            assert(rest.skip(1) =~= s@.skip(i + 1));
        }
        if is_space_char(s[i]) {
            if cur.len() > 0 {
                let ghost prev = done@;
                done.push(cur);
                cur = Vec::new();
                proof {
                    assert(views(done@) =~= views(prev).push(done@[done@.len() - 1]@));
                    assert(views(done@) + split_acc(s@.skip(i + 1), cur@) =~= split_ws(s@));
                }
            } else {
                proof {
                    assert(cur@ =~= Seq::<char>::empty());
                    assert(split_acc(rest, cur@) == split_acc(s@.skip(i + 1), cur@));
                    assert(views(done@) + split_acc(s@.skip(i + 1), cur@) =~= split_ws(s@));
                }
            }
        } else {
            let c = s[i];
            cur.push(c);
            proof {
                assert(views(done@) + split_acc(s@.skip(i + 1), cur@) =~= split_ws(s@));
            }
        }
        i = i + 1;
    }
    if cur.len() > 0 {
        let ghost prev = done@;
        done.push(cur);
        proof {
            assert(s@.skip(i as int) =~= Seq::<char>::empty());
            assert(views(done@) =~= views(prev).push(done@[done@.len() - 1]@));
            assert(views(done@) =~= split_ws(s@));
        }
    } else {
        proof {
            assert(s@.skip(i as int) =~= Seq::<char>::empty());
            assert(views(done@) =~= split_ws(s@));
        }
    }
    done
}

/// Whether `t` occurs in the stopword list.
pub fn is_stop(t: &Vec<char>, stops: &Vec<Vec<char>>) -> (r: bool)
    ensures
        r == views(stops@).contains(t@),
{
    let mut i: usize = 0;
    while i < stops.len()
        invariant
            i <= stops@.len(),
            forall|q: int| 0 <= q < i ==> views(stops@)[q] != t@,
        decreases stops.len() - i,
    {
        if eq_chars(&stops[i], t) {
            proof {
                assert(views(stops@)[i as int] == t@);
            }
            return true;
        }
        i = i + 1;
    }
    proof {
        if views(stops@).contains(t@) {
            let q = choose|q: int| 0 <= q < views(stops@).len() && views(stops@)[q] == t@;
        }
    }
    false
}

/// Remove the stopwords from a token list.
pub fn drop_stops_vec(toks: Vec<Vec<char>>, stops: &Vec<Vec<char>>) -> (r: Vec<Vec<char>>)
    ensures
        views(r@) == drop_stops(views(toks@), views(stops@)),
{
    let ghost all = views(toks@);
    let ghost st = views(stops@);
    let mut r: Vec<Vec<char>> = Vec::new();
    let mut i: usize = 0;
    proof {
        assert(all.skip(0) =~= all);
        assert(views(r@) + drop_stops(all, st) =~= drop_stops(all, st));
    }
    while i < toks.len()
        invariant
            i <= toks@.len(),
            all == views(toks@),
            st == views(stops@),
            drop_stops(all, st) == views(r@) + drop_stops(all.skip(i as int), st),
        decreases toks.len() - i,
    {
        let ghost rest = all.skip(i as int);
        proof {
            assert(rest[0] == all[i as int]);
            assert(rest.skip(1) =~= all.skip(i + 1));
        }
        if !is_stop(&toks[i], stops) {
            let ghost prev = r@;
            let t = toks[i].clone();
            proof {
                assert(t@ == all[i as int]);
            }
            r.push(t);
            proof {
                assert(views(r@) =~= views(prev).push(all[i as int]));
                assert(views(r@) + drop_stops(all.skip(i + 1), st) =~= drop_stops(all, st));
            }
        } else {
            proof {
                assert(views(r@) + drop_stops(all.skip(i + 1), st) =~= drop_stops(all, st));
            }
        }
        i = i + 1;
    }
    proof {
        assert(all.skip(i as int) =~= Seq::<Seq<char>>::empty());
        assert(views(r@) =~= drop_stops(all, st));
    }
    r
}

/// Normalize a raw body into its tokens: expand escapes, lowercase, strip
/// punctuation, split on whitespace, and drop stopwords.
pub fn normalize(body: &Vec<char>, stops: &Vec<Vec<char>>) -> (toks: Vec<Vec<char>>)
    ensures
        views(toks@) == tokens_of(body@, views(stops@)),
{
    let unescaped = unescape_vec(body);
    let lowered = lower_vec(&unescaped);
    let cleaned = depunct_vec(&lowered);
    let pieces = split_vec(&cleaned);
    drop_stops_vec(pieces, stops)
}

/// Remove the punctuation characters from each stopword line.
pub fn clean_stops_vec(lines: &Vec<Vec<char>>) -> (r: Vec<Vec<char>>)
    ensures
        views(r@) == clean_stops(views(lines@)),
{
    let mut r: Vec<Vec<char>> = Vec::new();
    let mut i: usize = 0;
    while i < lines.len()
        invariant
            i <= lines@.len(),
            views(r@) == views(lines@).take(i as int).map_values(|l: Seq<char>| depunct(l)),
        decreases lines.len() - i,
    {
        let ghost prev = r@;
        let c = depunct_vec(&lines[i]);
        r.push(c);
        proof {
            assert(views(r@) =~= views(prev).push(depunct(views(lines@)[i as int])));
            assert(views(r@) =~= views(lines@).take(i + 1).map_values(
                |l: Seq<char>| depunct(l)));
        }
        i = i + 1;
    }
    proof {
        assert(views(lines@).take(i as int) =~= views(lines@));
    }
    r
}

/// Build a `String` from a character vector.
/// Relies on `String::from_iter` over `char`s: the resulting string holds
/// exactly the given characters, in order.
#[verifier::external_body]
pub fn string_from_chars(v: &Vec<char>) -> (r: String)
    ensures
        r@ == v@,
{
    v.iter().collect()
}

} // verus!
