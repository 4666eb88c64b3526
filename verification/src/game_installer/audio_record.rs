//! Records of the voice languages that are installed: one name on each line.

use vstd::prelude::*;
use crate::strings::as_lines;
use crate::strings::filled_lines;
use crate::strings::has_string;
use crate::strings::join_lines;
use crate::strings::line_body;
use crate::strings::lines_of;
use crate::strings::trimmed;
use crate::strings::trimmed_lines;
use crate::text::split_on;
use crate::text::views;

verus! {

/// `existing`, with those of the first `n` names behind it that are not there yet.
pub open spec fn merged(existing: Seq<Seq<char>>, names: Seq<Seq<char>>, n: int) -> Seq<Seq<char>>
    decreases n,
{
    if n <= 0 {
        existing
    } else {
        let before = merged(existing, names, n - 1);
        if before.contains(names[n - 1]) {
            before
        } else {
            before.push(names[n - 1])
        }
    }
}

/// The names in a record, if there is one.
pub open spec fn record_names(content: Option<Seq<char>>) -> Seq<Seq<char>> {
    match content {
        Some(c) => filled_lines(c),
        None => Seq::empty(),
    }
}

/// The text of a record once some names are added to it.
pub open spec fn record_with(content: Option<Seq<char>>, names: Seq<Seq<char>>) -> Seq<char> {
    let all = merged(record_names(content), names, names.len() as int);
    as_lines(all, all.len() as int)
}

/// What an optional text says.
pub open spec fn record_view(content: Option<&str>) -> Option<Seq<char>> {
    match content {
        Some(c) => Some(c@),
        None => None,
    }
}

/// The text of a record once some names are added to it. The names that were
/// there stay, in their order.
pub fn add_to_record(content: Option<&str>, names: &Vec<String>) -> (r: String)
    ensures
        r@ == record_with(record_view(content), views(names@)),
{
    let mut all: Vec<String> = match content {
        Some(c) => trimmed_lines(c),
        None => Vec::new(),
    };
    let ghost start = record_names(record_view(content));
    assert(views(all@) =~= start);
    let ghost v = views(names@);
    let mut i: usize = 0;
    while i < names.len()
        invariant
            i <= names@.len(),
            v == views(names@),
            views(all@) == merged(start, v, i as int),
        decreases names@.len() - i,
    {
        assert(v[i as int] == names@[i as int]@);
        let ghost before = views(all@);
        if !has_string(&all, names[i].as_str()) {
            all.push(names[i].clone());
            assert(views(all@) =~= before.push(names@[i as int]@));
        }
        i += 1;
    }
    assert(views(all@).len() == all@.len());
    join_lines(&all)
}

/// A name can stand on a line of its own: it is not empty, holds no line break,
/// and has no white space around it.
pub open spec fn fits_a_line(name: Seq<char>) -> bool {
    name.len() > 0 && !name.contains('\n') && !name.contains('\r') && trimmed(name) == name
}

/// What stands behind the last line break is the last piece.
proof fn lemma_split_after_break(s: Seq<char>, e: Seq<char>)
    requires
        split_on(s, '\n').last() == Seq::<char>::empty(),
        !e.contains('\n'),
    ensures
        split_on(s + e, '\n') == split_on(s, '\n').drop_last().push(e),
    decreases e.len(),
{
    crate::text::lemma_split_nonempty(s, '\n');
    let p = split_on(s, '\n');
    if e.len() == 0 {
        assert(s + e =~= s);
        assert(e =~= Seq::<char>::empty());
        assert(p.drop_last().push(e) =~= p);
    } else {
        let front = e.drop_last();
        let c = e.last();
        assert(e.contains(c));
        assert(!front.contains('\n')) by {
            if front.contains('\n') {
                let i = choose|i: int| 0 <= i < front.len() && front[i] == '\n';
                assert(e[i] == '\n');
            }
        }
        lemma_split_after_break(s, front);
        assert((s + e).drop_last() =~= s + front);
        let q = p.drop_last().push(front);
        assert(q.drop_last() =~= p.drop_last());
        assert(front.push(c) =~= e);
        assert(split_on(s + e, '\n') =~= q.drop_last().push(q.last().push(c)));
    }
}

/// The lines of a text that was put together from lines are those lines.
proof fn lemma_lines_come_back(all: Seq<Seq<char>>, n: int)
    requires
        0 <= n <= all.len(),
        forall|i: int| 0 <= i < all.len() ==> fits_a_line(#[trigger] all[i]),
    ensures
        split_on(as_lines(all, n), '\n') == all.take(n).push(Seq::<char>::empty()),
    decreases n,
{
    if n == 0 {
        assert(as_lines(all, 0) =~= Seq::<char>::empty());
        assert(split_on(Seq::<char>::empty(), '\n') =~= all.take(0).push(Seq::<char>::empty()));
    } else {
        lemma_lines_come_back(all, n - 1);
        let s = as_lines(all, n - 1);
        let e = all[n - 1];
        assert(fits_a_line(e));
        let p = split_on(s, '\n');
        assert(p.last() == Seq::<char>::empty());
        lemma_split_after_break(s, e);
        assert(p.drop_last() =~= all.take(n - 1));
        let t = as_lines(all, n);
        assert(t =~= (s + e).push('\n'));
        assert(t.drop_last() =~= s + e);
        assert(all.take(n - 1).push(e) =~= all.take(n));
        assert(split_on(t, '\n') =~= all.take(n).push(Seq::<char>::empty()));
    }
}

/// What is read of a record is what was written to it.
pub proof fn law_record_round_trip(all: Seq<Seq<char>>)
    requires
        forall|i: int| 0 <= i < all.len() ==> fits_a_line(#[trigger] all[i]),
    ensures
        record_names(Some(as_lines(all, all.len() as int))) == all,
{
    let n = all.len() as int;
    let text = as_lines(all, n);
    lemma_lines_come_back(all, n);
    assert(all.take(n) =~= all);
    let pieces = split_on(text, '\n');
    assert(pieces.drop_last() =~= all);
    assert forall|i: int| 0 <= i < all.len() implies line_body(#[trigger] all[i]) == all[i] by {
        assert(fits_a_line(all[i]));
        assert(all[i].contains(all[i].last()));
    }
    assert(lines_of(text) =~= all);
    let trimmed_all = lines_of(text).map_values(|l: Seq<char>| trimmed(l));
    assert forall|i: int| 0 <= i < all.len() implies #[trigger] trimmed_all[i] == all[i] by {
        assert(fits_a_line(all[i]));
    }
    assert(trimmed_all =~= all);
    lemma_filter_keeps_all(all, |l: Seq<char>| l.len() > 0);
}

proof fn lemma_filter_keeps_all(all: Seq<Seq<char>>, keep: spec_fn(Seq<char>) -> bool)
    requires
        forall|i: int| 0 <= i < all.len() ==> keep(#[trigger] all[i]),
    ensures
        all.filter(keep) == all,
    decreases all.len(),
{
    reveal(Seq::filter);
    if all.len() > 0 {
        lemma_filter_keeps_all(all.drop_last(), keep);
        assert(keep(all[all.len() - 1]));
        assert(all.drop_last().push(all.last()) =~= all);
    }
}

/// Names that are there change nothing.
proof fn lemma_merge_of_known(existing: Seq<Seq<char>>, names: Seq<Seq<char>>, n: int)
    requires
        0 <= n <= names.len(),
        forall|i: int| 0 <= i < names.len() ==> existing.contains(#[trigger] names[i]),
    ensures
        merged(existing, names, n) == existing,
    decreases n,
{
    if n > 0 {
        lemma_merge_of_known(existing, names, n - 1);
    }
}

/// Every name that is added is there, and nothing that was there is lost.
pub proof fn law_added_names_are_there(existing: Seq<Seq<char>>, names: Seq<Seq<char>>, n: int)
    requires
        0 <= n <= names.len(),
    ensures
        forall|i: int| 0 <= i < n ==> merged(existing, names, n).contains(#[trigger] names[i]),
        existing.is_prefix_of(merged(existing, names, n)),
    decreases n,
{
    if n > 0 {
        law_added_names_are_there(existing, names, n - 1);
        let before = merged(existing, names, n - 1);
        let now = merged(existing, names, n);
        assert forall|x: Seq<char>| before.contains(x) implies #[trigger] now.contains(x) by {
            let k = choose|k: int| 0 <= k < before.len() && before[k] == x;
            assert(now[k] == x);
        }
        if !before.contains(names[n - 1]) {
            assert(now.last() == names[n - 1]);
        }
        assert forall|i: int| 0 <= i < n implies now.contains(#[trigger] names[i]) by {
            if i < n - 1 {
                assert(before.contains(names[i]));
            }
        }
    }
}

/// To add the same names again changes nothing.
pub proof fn law_recording_twice_changes_nothing(content: Option<Seq<char>>, names: Seq<Seq<char>>)
    requires
        ({
            let all = merged(record_names(content), names, names.len() as int);
            forall|i: int| 0 <= i < all.len() ==> fits_a_line(#[trigger] all[i])
        }),
    ensures
        record_with(Some(record_with(content, names)), names) == record_with(content, names),
{
    let n = names.len() as int;
    let all = merged(record_names(content), names, n);
    law_record_round_trip(all);
    law_added_names_are_there(record_names(content), names, n);
    lemma_merge_of_known(all, names, n);
}

/// Nothing is in a record but what was there and what is added, and nothing that
/// is added stands there twice.
pub proof fn law_records_hold_nothing_else(
    existing: Seq<Seq<char>>,
    names: Seq<Seq<char>>,
    n: int,
    x: Seq<char>,
)
    requires
        0 <= n <= names.len(),
    ensures
        merged(existing, names, n).contains(x) <==> existing.contains(x) || exists|i: int|
            0 <= i < n && #[trigger] names[i] == x,
        existing.no_duplicates() ==> merged(existing, names, n).no_duplicates(),
    decreases n,
{
    if n > 0 {
        law_records_hold_nothing_else(existing, names, n - 1, x);
        law_added_names_are_there(existing, names, n);
        let before = merged(existing, names, n - 1);
        let now = merged(existing, names, n);
        if before.contains(x) {
            let k = choose|k: int| 0 <= k < before.len() && before[k] == x;
            assert(now[k] == x);
        }
        if now.contains(x) {
            let k = choose|k: int| 0 <= k < now.len() && now[k] == x;
            if k < before.len() {
                assert(before[k] == x);
            } else {
                assert(names[n - 1] == x);
            }
        }
        if existing.contains(x) {
            let k = choose|k: int| 0 <= k < existing.len() && existing[k] == x;
            assert(now[k] == x);
        }
    }
}

} // verus!
