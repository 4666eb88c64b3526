//! Trimming, lines, replacing and joining of text.

use vstd::prelude::*;
use crate::text::chars_of;
use crate::text::find;
use crate::text::find_from;
use crate::text::matches_at;
use crate::text::split_on;
use crate::text::stands_at;
use crate::text::string_of;
use crate::text::views;

verus! {

/// `c` has the Unicode property `White_Space`.
pub open spec fn white_space(c: char) -> bool {
    let n = c as u32;
    ||| 0x9 <= n <= 0xd
    ||| n == 0x20
    ||| n == 0x85
    ||| n == 0xa0
    ||| n == 0x1680
    ||| 0x2000 <= n <= 0x200a
    ||| n == 0x2028
    ||| n == 0x2029
    ||| n == 0x202f
    ||| n == 0x205f
    ||| n == 0x3000
}

/// `s` in lower case, by the rules of Unicode.
pub uninterp spec fn lowercase_of(s: Seq<char>) -> Seq<char>;

/// Whether `c` has the Unicode property `White_Space`.
fn is_white_space(c: char) -> (r: bool)
    ensures
        r == white_space(c),
{
    let n: u32 = c as u32;
    (0x9 <= n && n <= 0xd) || n == 0x20 || n == 0x85 || n == 0xa0 || n == 0x1680 || (0x2000 <= n
        && n <= 0x200a) || n == 0x2028 || n == 0x2029 || n == 0x202f || n == 0x205f || n == 0x3000
}

/// `str::to_lowercase`, which depends on the characters alone.
#[verifier::external_body]
pub(crate) fn lowercase(s: &str) -> (r: String)
    ensures
        r@ == lowercase_of(s@),
{
    s.to_lowercase()
}

/// `String::from_utf8`: the text that well-formed UTF-8 stands for, and nothing for
/// other bytes.
#[verifier::external_body]
fn utf8_text(bytes: Vec<u8>) -> (r: Option<String>)
    ensures
        match r {
            Some(s) => vstd::utf8::valid_utf8(bytes@) && s@ == vstd::utf8::decode_utf8(bytes@),
            None => !vstd::utf8::valid_utf8(bytes@),
        },
{
    String::from_utf8(bytes).ok()
}

/// The pieces of `s` between its line feeds.
pub open spec fn byte_lines(s: Seq<u8>) -> Seq<Seq<u8>>
    decreases s.len(),
{
    if s.len() == 0 {
        seq![Seq::empty()]
    } else {
        let head = byte_lines(s.drop_last());
        if s.last() == 10 {
            head.push(Seq::empty())
        } else {
            head.drop_last().push(head.last().push(s.last()))
        }
    }
}

/// Those of the first `n` pieces that are well-formed text.
pub open spec fn readable(pieces: Seq<Seq<u8>>, n: int) -> Seq<Seq<char>>
    decreases n,
{
    if n <= 0 {
        Seq::empty()
    } else if vstd::utf8::valid_utf8(pieces[n - 1]) {
        readable(pieces, n - 1).push(vstd::utf8::decode_utf8(pieces[n - 1]))
    } else {
        readable(pieces, n - 1)
    }
}

proof fn lemma_readable_prefix(a: Seq<Seq<u8>>, b: Seq<Seq<u8>>, n: int)
    requires
        0 <= n <= a.len(),
        n <= b.len(),
        forall|i: int| 0 <= i < n ==> #[trigger] a[i] == b[i],
    ensures
        readable(a, n) == readable(b, n),
    decreases n,
{
    if n > 0 {
        lemma_readable_prefix(a, b, n - 1);
    }
}

fn push_readable(out: &mut Vec<String>, piece: Vec<u8>, Ghost(done): Ghost<Seq<Seq<u8>>>)
    requires
        views(old(out)@) == readable(done, done.len() as int),
    ensures
        views(final(out)@) == readable(done.push(piece@), done.len() as int + 1),
{
    let ghost all = done.push(piece@);
    let ghost before = views(out@);
    proof {
        lemma_readable_prefix(done, all, done.len() as int);
        assert(all[done.len() as int] == piece@);
    }
    match utf8_text(piece) {
        Some(s) => {
            out.push(s);
            assert(views(out@) =~= before.push(s@));
        },
        None => {},
    }
}

/// The lines of `content` that are well-formed text.
pub fn readable_lines(content: &Vec<u8>) -> (r: Vec<String>)
    ensures
        views(r@) == readable(byte_lines(content@), byte_lines(content@).len() as int),
{
    let mut out: Vec<String> = Vec::new();
    let mut piece: Vec<u8> = Vec::new();
    let ghost mut done: Seq<Seq<u8>> = Seq::empty();
    let mut i: usize = 0;
    proof {
        assert(content@.take(0) =~= Seq::<u8>::empty());
        assert(byte_lines(content@.take(0)) =~= done.push(piece@));
        assert(views(out@) =~= readable(done, 0));
    }
    while i < content.len()
        invariant
            i <= content@.len(),
            byte_lines(content@.take(i as int)) == done.push(piece@),
            views(out@) == readable(done, done.len() as int),
        decreases content@.len() - i,
    {
        let b: u8 = content[i];
        let ghost taken = content@.take(i as int + 1);
        assert(taken.drop_last() =~= content@.take(i as int));
        assert(taken.last() == b);
        let ghost before = done.push(piece@);
        if b == 10 {
            push_readable(&mut out, piece, Ghost(done));
            piece = Vec::new();
            proof {
                done = before;
                assert(piece@ =~= Seq::<u8>::empty());
            }
        } else {
            proof {
                assert(before.drop_last() =~= done);
            }
            piece.push(b);
        }
        i += 1;
    }
    assert(content@.take(content@.len() as int) =~= content@);
    push_readable(&mut out, piece, Ghost(done));
    out
}

/// `s` without the characters that `drop` holds of, at its start.
pub open spec fn strip_start(s: Seq<char>, drop: spec_fn(char) -> bool) -> Seq<char>
    decreases s.len(),
{
    if s.len() > 0 && drop(s[0]) {
        strip_start(s.drop_first(), drop)
    } else {
        s
    }
}

/// `s` without the characters that `drop` holds of, at its end.
pub open spec fn strip_end(s: Seq<char>, drop: spec_fn(char) -> bool) -> Seq<char>
    decreases s.len(),
{
    if s.len() > 0 && drop(s.last()) {
        strip_end(s.drop_last(), drop)
    } else {
        s
    }
}

/// `s` without white space at either end.
pub open spec fn trimmed(s: Seq<char>) -> Seq<char> {
    strip_end(strip_start(s, |c: char| white_space(c)), |c: char| white_space(c))
}

/// Being the character `x`.
pub open spec fn is_char(x: char) -> spec_fn(char) -> bool {
    |c: char| c == x
}

/// `s` without the character `x` at either end.
pub open spec fn trimmed_of(s: Seq<char>, x: char) -> Seq<char> {
    strip_end(strip_start(s, is_char(x)), is_char(x))
}

/// `s` without white space at either end.
pub fn trim(s: &str) -> (r: String)
    ensures
        r@ == trimmed(s@),
{
    let chars = chars_of(s);
    let n: usize = chars.len();
    let ghost drop = |c: char| white_space(c);
    let mut lo: usize = 0;
    assert(chars@.skip(0) =~= chars@);
    while lo < n && is_white_space(chars[lo])
        invariant
            lo <= n,
            n == chars@.len(),
            drop == (|c: char| white_space(c)),
            strip_start(chars@, drop) == strip_start(chars@.skip(lo as int), drop),
        decreases n - lo,
    {
        assert(chars@.skip(lo as int).drop_first() =~= chars@.skip(lo as int + 1));
        lo += 1;
    }
    let ghost rest = chars@.skip(lo as int);
    assert(strip_start(chars@, drop) == rest);
    let mut hi: usize = n;
    assert(chars@.subrange(lo as int, hi as int) =~= rest);
    while hi > lo && is_white_space(chars[hi - 1])
        invariant
            lo <= hi <= n,
            n == chars@.len(),
            drop == (|c: char| white_space(c)),
            strip_end(rest, drop) == strip_end(chars@.subrange(lo as int, hi as int), drop),
        decreases hi - lo,
    {
        assert(chars@.subrange(lo as int, hi as int).drop_last() =~= chars@.subrange(
            lo as int,
            hi - 1,
        ));
        hi -= 1;
    }
    crate::text::string_of_range(&chars, lo, hi)
}

/// `s` without the character `x` at either end.
pub fn trim_of(s: &str, x: char) -> (r: String)
    ensures
        r@ == trimmed_of(s@, x),
{
    let chars = chars_of(s);
    let n: usize = chars.len();
    let ghost drop = is_char(x);
    let mut lo: usize = 0;
    assert(chars@.skip(0) =~= chars@);
    while lo < n && chars[lo] == x
        invariant
            lo <= n,
            n == chars@.len(),
            drop == is_char(x),
            strip_start(chars@, drop) == strip_start(chars@.skip(lo as int), drop),
        decreases n - lo,
    {
        assert(chars@.skip(lo as int).drop_first() =~= chars@.skip(lo as int + 1));
        lo += 1;
    }
    let ghost rest = chars@.skip(lo as int);
    assert(strip_start(chars@, drop) == rest);
    let mut hi: usize = n;
    assert(chars@.subrange(lo as int, hi as int) =~= rest);
    while hi > lo && chars[hi - 1] == x
        invariant
            lo <= hi <= n,
            n == chars@.len(),
            drop == is_char(x),
            strip_end(rest, drop) == strip_end(chars@.subrange(lo as int, hi as int), drop),
        decreases hi - lo,
    {
        assert(chars@.subrange(lo as int, hi as int).drop_last() =~= chars@.subrange(
            lo as int,
            hi - 1,
        ));
        hi -= 1;
    }
    crate::text::string_of_range(&chars, lo, hi)
}

/// A line without the carriage return that belongs to its end.
pub open spec fn line_body(s: Seq<char>) -> Seq<char> {
    if s.len() > 0 && s.last() == '\r' {
        s.drop_last()
    } else {
        s
    }
}

/// The lines of `s`. A line ends with a line feed, or with a carriage return
/// and a line feed; behind the last line the end may be missing.
pub open spec fn lines_of(s: Seq<char>) -> Seq<Seq<char>> {
    let pieces = split_on(s, '\n');
    let ended = pieces.drop_last().map_values(|p: Seq<char>| line_body(p));
    if pieces.last().len() == 0 {
        ended
    } else {
        ended.push(pieces.last())
    }
}

/// The lines of `s`.
pub fn lines(s: &str) -> (r: Vec<String>)
    ensures
        views(r@) == lines_of(s@),
{
    let chars = chars_of(s);
    let pieces = crate::text::split(&chars, '\n');
    let ghost spec_pieces = split_on(s@, '\n');
    assert(views(pieces@) == spec_pieces);
    assert(pieces@.len() == spec_pieces.len()) by {
        assert(views(pieces@).len() == pieces@.len());
    }
    assert forall|j: int| 0 <= j < pieces@.len() implies #[trigger] pieces@[j]@ == spec_pieces[j] by {
        assert(views(pieces@)[j] == pieces@[j]@);
    }
    let last: usize = pieces.len() - 1;
    let mut out: Vec<String> = Vec::new();
    let mut i: usize = 0;
    while i < last
        invariant
            i <= last,
            last + 1 == pieces@.len(),
            pieces@.len() == spec_pieces.len(),
            forall|j: int| 0 <= j < pieces@.len() ==> #[trigger] pieces@[j]@ == spec_pieces[j],
            out@.len() == i,
            forall|j: int| 0 <= j < i ==> #[trigger] out@[j]@ == line_body(spec_pieces[j]),
        decreases last - i,
    {
        let piece = chars_of(pieces[i].as_str());
        let m: usize = piece.len();
        let body: String = if m > 0 && piece[m - 1] == '\r' {
            let b = crate::text::string_of_range(&piece, 0, m - 1);
            assert(b@ =~= spec_pieces[i as int].drop_last());
            b
        } else {
            string_of(&piece)
        };
        out.push(body);
        i += 1;
    }
    if !pieces[last].as_str().is_empty() {
        out.push(pieces[last].clone());
    }
    assert(views(out@) =~= lines_of(s@));
    out
}

/// The lines of `s` that are not blank, without white space around them.
pub open spec fn filled_lines(s: Seq<char>) -> Seq<Seq<char>> {
    lines_of(s).map_values(|l: Seq<char>| trimmed(l)).filter(|l: Seq<char>| l.len() > 0)
}

/// The lines of `s` that are not blank, without white space around them.
pub fn trimmed_lines(s: &str) -> (r: Vec<String>)
    ensures
        views(r@) == filled_lines(s@),
{
    let all = lines(s);
    let ghost spec_all = lines_of(s@).map_values(|l: Seq<char>| trimmed(l));
    let mut out: Vec<String> = Vec::new();
    let mut i: usize = 0;
    assert(views(all@).len() == all@.len());
    assert forall|j: int| 0 <= j < all@.len() implies trimmed(#[trigger] all@[j]@) == spec_all[j] by {
        assert(views(all@)[j] == all@[j]@);
    }
    proof {
        assert(spec_all.take(0) =~= Seq::<Seq<char>>::empty());
        reveal(Seq::filter);
        assert(views(out@) =~= spec_all.take(0).filter(|l: Seq<char>| l.len() > 0));
    }
    while i < all.len()
        invariant
            i <= all@.len(),
            all@.len() == spec_all.len(),
            forall|j: int| 0 <= j < all@.len() ==> trimmed(#[trigger] all@[j]@) == spec_all[j],
            views(out@) == spec_all.take(i as int).filter(|l: Seq<char>| l.len() > 0),
        decreases all@.len() - i,
    {
        let t = trim(all[i].as_str());
        let ghost before = views(out@);
        proof {
            reveal(Seq::filter);
            assert(spec_all.take(i as int + 1).drop_last() =~= spec_all.take(i as int));
        }
        if !t.as_str().is_empty() {
            out.push(t);
            assert(views(out@) =~= before.push(t@));
        }
        i += 1;
    }
    assert(spec_all.take(spec_all.len() as int) =~= spec_all);
    out
}

/// `s` with each character that `drop` holds of replaced by `with`.
pub open spec fn replaced(s: Seq<char>, drop: spec_fn(char) -> bool, with: char) -> Seq<char> {
    s.map_values(
        |c: char|
            if drop(c) {
                with
            } else {
                c
            },
    )
}

/// `s` with each character in `from` replaced by `with`.
pub open spec fn replaced_any(s: Seq<char>, from: Seq<char>, with: char) -> Seq<char> {
    replaced(s, |c: char| from.contains(c), with)
}

/// `s` with each character in `from` replaced by `with`.
pub fn replace_any(s: &str, from: &str, with: char) -> (r: String)
    ensures
        r@ == replaced_any(s@, from@, with),
{
    let chars = chars_of(s);
    let set = chars_of(from);
    let mut out = String::new();
    let mut i: usize = 0;
    while i < chars.len()
        invariant
            i <= chars@.len(),
            chars@ == s@,
            set@ == from@,
            out@ == replaced_any(s@, from@, with).take(i as int),
        decreases chars@.len() - i,
    {
        let c: char = chars[i];
        let hit = has_char(&set, c);
        let ghost whole = replaced_any(s@, from@, with);
        assert(whole.take(i as int + 1) =~= whole.take(i as int).push(whole[i as int]));
        if hit {
            out.push(with);
        } else {
            out.push(c);
        }
        i += 1;
    }
    assert(replaced_any(s@, from@, with).take(s@.len() as int) =~= replaced_any(s@, from@, with));
    out
}

/// Whether `c` is one of `set`.
pub fn has_char(set: &Vec<char>, c: char) -> (r: bool)
    ensures
        r == set@.contains(c),
{
    let mut i: usize = 0;
    while i < set.len()
        invariant
            i <= set@.len(),
            forall|j: int| 0 <= j < i ==> set@[j] != c,
        decreases set@.len() - i,
    {
        if set[i] == c {
            assert(set@[i as int] == c);
            return true;
        }
        i += 1;
    }
    false
}

/// `s` starts with `pat`.
pub open spec fn starts_with(s: Seq<char>, pat: Seq<char>) -> bool {
    matches_at(s, pat, 0)
}

/// `s` ends with `pat`.
pub open spec fn ends_with(s: Seq<char>, pat: Seq<char>) -> bool {
    matches_at(s, pat, s.len() - pat.len())
}

/// Whether `s` starts with `pat`.
pub fn has_prefix(s: &str, pat: &str) -> (r: bool)
    ensures
        r == starts_with(s@, pat@),
{
    stands_at(&chars_of(s), &chars_of(pat), 0)
}

/// Whether `s` ends with `pat`.
pub fn has_suffix(s: &str, pat: &str) -> (r: bool)
    ensures
        r == ends_with(s@, pat@),
{
    let a = chars_of(s);
    let b = chars_of(pat);
    let n: usize = a.len();
    let m: usize = b.len();
    if m > n {
        return false;
    }
    stands_at(&a, &b, n - m)
}

/// `s` from `i` on, with each `from` replaced by `to`, from left to right.
pub open spec fn substituted(s: Seq<char>, from: Seq<char>, to: Seq<char>, i: int) -> Seq<char>
    decreases s.len() - i,
{
    if i < 0 || i > s.len() || from.len() == 0 {
        s.skip(i)
    } else {
        match find_from(s, from, i) {
            None => s.skip(i),
            Some(k) => if k >= i && k + from.len() <= s.len() {
                s.subrange(i, k) + to + substituted(s, from, to, k + from.len())
            } else {
                s.skip(i)
            },
        }
    }
}

/// `s` with each `from` replaced by `to`.
pub fn substitute(s: &str, from: &str, to: &str) -> (r: String)
    requires
        from@.len() > 0,
    ensures
        r@ == substituted(s@, from@, to@, 0),
{
    let a = chars_of(s);
    let b = chars_of(from);
    let n: usize = a.len();
    let m: usize = b.len();
    let mut out = String::new();
    let mut i: usize = 0;
    assert(Seq::<char>::empty() + substituted(s@, from@, to@, 0) =~= substituted(s@, from@, to@, 0));
    loop
        invariant
            i <= n,
            n == a@.len(),
            m == b@.len(),
            m > 0,
            a@ == s@,
            b@ == from@,
            substituted(s@, from@, to@, 0) == out@ + substituted(s@, from@, to@, i as int),
        decreases n - i,
    {
        match find(&a, &b, i) {
            None => {
                let tail = crate::text::string_of_range(&a, i, n);
                let ghost before = out@;
                out.append(tail.as_str());
                assert(s@.skip(i as int) =~= a@.subrange(i as int, n as int));
                return out;
            },
            Some(k) => {
                let head = crate::text::string_of_range(&a, i, k);
                let ghost before = out@;
                out.append(head.as_str());
                out.append(to);
                proof {
                    let rest = substituted(s@, from@, to@, k + m);
                    assert(before + (s@.subrange(i as int, k as int) + to@ + rest) =~= (before
                        + s@.subrange(i as int, k as int) + to@) + rest);
                }
                i = k + m;
            },
        }
    }
}

/// `parts`, each followed by a line feed.
pub open spec fn as_lines(parts: Seq<Seq<char>>, n: int) -> Seq<char>
    decreases n,
{
    if n <= 0 {
        Seq::empty()
    } else {
        as_lines(parts, n - 1) + parts[n - 1] + seq!['\n']
    }
}

/// `parts`, each followed by a line feed.
pub fn join_lines(parts: &Vec<String>) -> (r: String)
    ensures
        r@ == as_lines(views(parts@), parts@.len() as int),
{
    let mut out = String::new();
    let mut i: usize = 0;
    while i < parts.len()
        invariant
            i <= parts@.len(),
            out@ == as_lines(views(parts@), i as int),
        decreases parts@.len() - i,
    {
        let ghost before = out@;
        out.append(parts[i].as_str());
        out.push('\n');
        i += 1;
        assert(views(parts@)[i - 1] == parts@[i - 1]@);
        assert(out@ =~= before + parts@[i - 1]@ + seq!['\n']);
    }
    out
}

/// Whether `name` is one of `all`.
pub fn has_string(all: &Vec<String>, name: &str) -> (r: bool)
    ensures
        r == views(all@).contains(name@),
{
    let mut i: usize = 0;
    while i < all.len()
        invariant
            i <= all@.len(),
            forall|j: int| 0 <= j < i ==> #[trigger] all@[j]@ != name@,
        decreases all@.len() - i,
    {
        if *all[i].as_str() == *name {
            assert(views(all@)[i as int] == name@);
            return true;
        }
        i += 1;
    }
    proof {
        if views(all@).contains(name@) {
            let j = choose|j: int| 0 <= j < views(all@).len() && views(all@)[j] == name@;
            assert(all@[j]@ == name@);
        }
    }
    false
}

} // verus!
