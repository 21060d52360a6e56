//! Summaries: flattening a stored summary to plain text.

use crate::json::{
    first_named, json_parsed, json_trees, lemma_json_trees, lemma_member_trees, member_text, member_trees,
    members_are_found_by_name, parse_json, Json, JsonTree,
};
use crate::text::{
    all_white, blank_texts_are_trimmed_away, distinct, distinct_texts, join_texts, joined,
    joined_holds_every_part, lemma_distinct, lemma_trimmed_twice, occurs, same_text, texts, trim_text, trimmed,
};
use vstd::prelude::*;

verus! {

/// One line of a summary, where it is not blank.
pub open spec fn line_of(s: Seq<char>) -> Seq<Seq<char>> {
    let t = trimmed(s);
    if t.len() == 0 {
        Seq::empty()
    } else {
        seq![t]
    }
}

/// The heading of an object under one name, where it has one.
pub open spec fn heading_line(t: JsonTree, name: Seq<char>) -> Seq<Seq<char>> {
    match member_text(t, name) {
        Some(s) => line_of(s),
        None => Seq::empty(),
    }
}

/// Whether a member holds a heading.
pub open spec fn heading_name(name: Seq<char>) -> bool {
    name == "title"@ || name == "name"@ || name == "heading"@
}

/// The lines of a summary: its texts in order, the headings of an object before its other members.
pub open spec fn summary_lines(t: JsonTree) -> Seq<Seq<char>>
    decreases t,
{
    match t {
        JsonTree::Text(s) => line_of(s),
        JsonTree::List(items) => list_lines(items),
        JsonTree::Object(members) => heading_line(t, "title"@) + heading_line(t, "name"@)
            + heading_line(t, "heading"@) + member_lines(members),
        _ => Seq::empty(),
    }
}

/// The lines of a list of summary parts.
pub open spec fn list_lines(items: Seq<JsonTree>) -> Seq<Seq<char>>
    decreases items,
{
    if items.len() == 0 {
        Seq::empty()
    } else {
        list_lines(items.drop_last()) + summary_lines(items.last())
    }
}

/// The lines of the members of an object that are not its headings.
pub open spec fn member_lines(members: Seq<(Seq<char>, JsonTree)>) -> Seq<Seq<char>>
    decreases members,
{
    if members.len() == 0 {
        Seq::empty()
    } else {
        let before = member_lines(members.drop_last());
        if heading_name(members.last().0) {
            before
        } else {
            before + summary_lines(members.last().1)
        }
    }
}

/// A summary as plain text: its lines, each once.
pub open spec fn flattened(t: JsonTree) -> Seq<char> {
    joined(distinct(summary_lines(t)), "\n"@)
}

/// A stored summary as plain text: nothing of a blank one, and one that is not JSON as it stands.
pub open spec fn flattened_summary(stored: Seq<char>) -> Seq<char> {
    if trimmed(stored).len() == 0 {
        Seq::empty()
    } else {
        match json_parsed(stored) {
            Some(t) => flattened(t),
            None => stored,
        }
    }
}

/// Add one line, unless it is blank.
fn push_line(s: &String, out: &mut Vec<String>)
    ensures
        texts(final(out)@) == texts(old(out)@) + line_of(s@),
{
    let t = trim_text(s.as_str());
    let ghost o = out@;
    let ghost line = t@;
    if !t.as_str().is_empty() {
        out.push(t);
        assert(texts(out@) =~= texts(o) + seq![line]);
    } else {
        assert(texts(out@) =~= texts(o) + Seq::<Seq<char>>::empty());
    }
}

/// Add the lines of a summary.
pub fn walk_summary(x: &Json, out: &mut Vec<String>)
    ensures
        texts(final(out)@) == texts(old(out)@) + summary_lines(x.tree()),
    decreases *x,
{
    let ghost start = texts(out@);
    match x {
        Json::Text(s) => push_line(s, out),
        Json::List(items) => {
            let ghost trees = json_trees(items@);
            proof {
                lemma_json_trees(items@);
            }
            assert(start + list_lines(trees.take(0)) =~= start);
            for i in 0..items.len()
                invariant
                    *x == Json::List(*items),
                    trees == json_trees(items@),
                    trees.len() == items@.len(),
                    forall|k: int|
                        0 <= k < items@.len() ==> #[trigger] trees[k] == items@[k].tree(),
                    texts(out@) == start + list_lines(trees.take(i as int)),
            {
                assert(trees.take(i + 1).drop_last() == trees.take(i as int));
                assert(trees[i as int] == items@[i as int].tree());
                assert(decreases_to!(*x => x->List_0@[i as int]));
                walk_summary(&items[i], out);
                assert(texts(out@) =~= start + list_lines(trees.take(i + 1)));
            }
            assert(trees.take(items@.len() as int) == trees);
        },
        Json::Object(members) => {
            let ghost trees = member_trees(members@);
            let ghost whole = x.tree();
            if let Some(s) = x.text_of("title") {
                push_line(s, out);
            }
            assert(texts(out@) =~= start + heading_line(whole, "title"@));
            if let Some(s) = x.text_of("name") {
                push_line(s, out);
            }
            assert(texts(out@) =~= start + (heading_line(whole, "title"@) + heading_line(
                whole,
                "name"@,
            )));
            if let Some(s) = x.text_of("heading") {
                push_line(s, out);
            }
            let ghost heads = heading_line(whole, "title"@) + heading_line(whole, "name"@)
                + heading_line(whole, "heading"@);
            assert(texts(out@) =~= start + heads);
            proof {
                lemma_member_trees(members@);
            }
            assert(start + (heads + member_lines(trees.take(0))) =~= start + heads);
            for i in 0..members.len()
                invariant
                    *x == Json::Object(*members),
                    trees == member_trees(members@),
                    trees.len() == members@.len(),
                    forall|k: int|
                        0 <= k < members@.len() ==> #[trigger] trees[k] == (
                            members@[k].0@,
                            members@[k].1.tree(),
                        ),
                    texts(out@) == start + (heads + member_lines(trees.take(i as int))),
            {
                assert(trees.take(i + 1).drop_last() == trees.take(i as int));
                assert(trees[i as int].0 == members@[i as int].0@);
                let name = members[i].0.as_str();
                if !(same_text(name, "title") || same_text(name, "name") || same_text(
                    name,
                    "heading",
                )) {
                    assert(decreases_to!(*x => x->Object_0@[i as int].1));
                    walk_summary(&members[i].1, out);
                    assert(texts(out@) =~= start + (heads + member_lines(trees.take(i + 1))));
                }
            }
            assert(trees.take(members@.len() as int) == trees);
        },
        _ => {
            assert(texts(out@) =~= start + Seq::<Seq<char>>::empty());
        },
    }
}

/// A summary as plain text: its lines, each once.
pub fn flatten_json(value: &Json) -> (r: String)
    ensures
        r@ == flattened(value.tree()),
{
    let mut out: Vec<String> = Vec::new();
    walk_summary(value, &mut out);
    assert(texts(out@) =~= summary_lines(value.tree()));
    join_texts(&distinct_texts(&out), "\n")
}

/// Flatten a stored summary (JSON sections and blocks) to plain text, headings first.
pub fn flatten_summary(stored: &str) -> (r: String)
    ensures
        r@ == flattened_summary(stored@),
{
    if trim_text(stored).as_str().is_empty() {
        return String::new();
    }
    match parse_json(stored) {
        Some(value) => flatten_json(&value),
        None => stored.to_owned(),
    }
}

/// The lines of a flattened summary are trimmed and not blank.
pub proof fn summary_lines_are_clean(t: JsonTree)
    ensures
        clean_lines(summary_lines(t)),
        clean_lines(distinct(summary_lines(t))),
        distinct(summary_lines(t)).no_duplicates(),
{
    lemma_clean_summary(t);
    lemma_distinct(summary_lines(t));
    let ls = summary_lines(t);
    let ds = distinct(ls);
    assert forall|i: int| 0 <= i < ds.len() implies (#[trigger] ds[i]).len() > 0 && trimmed(ds[i])
        == ds[i] by {
        assert(ds.contains(ds[i]));
        assert(ls.contains(ds[i]));
        let k = choose|k: int| 0 <= k < ls.len() && ls[k] == ds[i];
        assert(ls[k].len() > 0 && trimmed(ls[k]) == ls[k]);
    }
}

/// Whether all lines are trimmed and not blank.
pub open spec fn clean_lines(ls: Seq<Seq<char>>) -> bool {
    forall|i: int| 0 <= i < ls.len() ==> (#[trigger] ls[i]).len() > 0 && trimmed(ls[i]) == ls[i]
}

proof fn lemma_clean_joined(a: Seq<Seq<char>>, b: Seq<Seq<char>>)
    requires
        clean_lines(a),
        clean_lines(b),
    ensures
        clean_lines(a + b),
{
    assert forall|i: int| 0 <= i < (a + b).len() implies (#[trigger] (a + b)[i]).len() > 0
        && trimmed((a + b)[i]) == (a + b)[i] by {
        if i < a.len() {
            assert((a + b)[i] == a[i]);
        } else {
            assert((a + b)[i] == b[i - a.len()]);
        }
    }
}

proof fn lemma_clean_heading(t: JsonTree, name: Seq<char>)
    ensures
        clean_lines(heading_line(t, name)),
{
    if let Some(s) = member_text(t, name) {
        lemma_trimmed_twice(s);
    }
}

proof fn lemma_clean_summary(t: JsonTree)
    ensures
        clean_lines(summary_lines(t)),
    decreases t,
{
    match t {
        JsonTree::Text(s) => {
            lemma_trimmed_twice(s);
        },
        JsonTree::List(items) => {
            lemma_clean_list(items);
        },
        JsonTree::Object(members) => {
            lemma_clean_heading(t, "title"@);
            lemma_clean_heading(t, "name"@);
            lemma_clean_heading(t, "heading"@);
            lemma_clean_joined(heading_line(t, "title"@), heading_line(t, "name"@));
            lemma_clean_joined(
                heading_line(t, "title"@) + heading_line(t, "name"@),
                heading_line(t, "heading"@),
            );
            lemma_clean_members(members);
            lemma_clean_joined(
                heading_line(t, "title"@) + heading_line(t, "name"@) + heading_line(t, "heading"@),
                member_lines(members),
            );
        },
        _ => {},
    }
}

proof fn lemma_clean_list(items: Seq<JsonTree>)
    ensures
        clean_lines(list_lines(items)),
    decreases items,
{
    if items.len() > 0 {
        lemma_clean_list(items.drop_last());
        lemma_clean_summary(items.last());
        lemma_clean_joined(list_lines(items.drop_last()), summary_lines(items.last()));
    }
}

proof fn lemma_clean_members(members: Seq<(Seq<char>, JsonTree)>)
    ensures
        clean_lines(member_lines(members)),
    decreases members,
{
    if members.len() > 0 {
        lemma_clean_members(members.drop_last());
        lemma_clean_summary(members.last().1);
        lemma_clean_joined(member_lines(members.drop_last()), summary_lines(members.last().1));
    }
}

// ---- nothing is lost, nothing is made up -----------------------------------------------------------

/// A step from a value to one that it holds: the item of a list, or the member of an object, at a position.
pub enum Step {
    Item(int),
    Member(int),
}

/// Whether a name is one that a heading stands under.
pub open spec fn names_a_heading(name: Seq<char>) -> bool {
    seq!["title"@, "name"@, "heading"@].contains(name)
}

/// The value that some steps lead to, through the items of lists and the members of objects that are not
/// headings.
pub open spec fn at_path(t: JsonTree, path: Seq<Step>) -> Option<JsonTree>
    decreases path.len(),
{
    if path.len() == 0 {
        Some(t)
    } else {
        match (t, path[0]) {
            (JsonTree::List(items), Step::Item(i)) => if 0 <= i < items.len() {
                at_path(items[i], path.skip(1))
            } else {
                None
            },
            (JsonTree::Object(members), Step::Member(i)) => if 0 <= i < members.len()
                && !names_a_heading(members[i].0) {
                at_path(members[i].1, path.skip(1))
            } else {
                None
            },
            _ => None,
        }
    }
}

/// Whether the member of an object at a position is a heading: a text under a heading's name, which no earlier
/// member has.
pub open spec fn is_heading(members: Seq<(Seq<char>, JsonTree)>, k: int, text: Seq<char>) -> bool {
    &&& 0 <= k < members.len()
    &&& names_a_heading(members[k].0)
    &&& members[k].1 == JsonTree::Text(text)
    &&& forall|j: int| 0 <= j < k ==> (#[trigger] members[j]).0 != members[k].0
}

/// Whether a value gives a line by itself: it is a text, or an object with a heading, and that is the line but
/// for white space at its ends.
pub open spec fn gives_line(x: JsonTree, line: Seq<char>) -> bool {
    match x {
        JsonTree::Text(s) => trimmed(s) == line,
        JsonTree::Object(members) => exists|k: int, s: Seq<char>|
            #[trigger] is_heading(members, k, s) && trimmed(s) == line,
        _ => false,
    }
}

/// No text is lost: every text that is not blank, and every heading of every object, that can be reached from
/// the root is a line of the summary, and stands in the flattened text.
pub proof fn no_text_is_lost(t: JsonTree, path: Seq<Step>, line: Seq<char>)
    requires
        at_path(t, path) is Some,
        gives_line(at_path(t, path)->0, line),
        line.len() > 0,
    ensures
        summary_lines(t).contains(line),
        occurs(flattened(t), line),
{
    lemma_reached_lines(t, path, line);
    let ls = summary_lines(t);
    lemma_distinct(ls);
    assert(distinct(ls).contains(line));
    let k = choose|k: int| 0 <= k < distinct(ls).len() && distinct(ls)[k] == line;
    joined_holds_every_part(distinct(ls), "\n"@, k);
}

proof fn lemma_reached_lines(t: JsonTree, path: Seq<Step>, line: Seq<char>)
    requires
        at_path(t, path) is Some,
        gives_line(at_path(t, path)->0, line),
        line.len() > 0,
    ensures
        summary_lines(t).contains(line),
    decreases path.len(),
{
    if path.len() == 0 {
        lemma_own_line(t, line);
    } else {
        match (t, path[0]) {
            (JsonTree::List(items), Step::Item(i)) => {
                lemma_reached_lines(items[i], path.skip(1), line);
                lemma_list_holds(items, i, line);
            },
            (JsonTree::Object(members), Step::Member(i)) => {
                lemma_reached_lines(members[i].1, path.skip(1), line);
                lemma_names(members[i].0);
                lemma_members_hold(members, i, line);
                let heads = heading_line(t, "title"@) + heading_line(t, "name"@) + heading_line(
                    t,
                    "heading"@,
                );
                let own = member_lines(members);
                let k = choose|k: int| 0 <= k < own.len() && own[k] == line;
                assert((heads + own)[heads.len() + k] == line);
            },
            _ => {},
        }
    }
}

proof fn lemma_names(name: Seq<char>)
    ensures
        names_a_heading(name) <==> heading_name(name),
{
    let names = seq!["title"@, "name"@, "heading"@];
    if heading_name(name) {
        assert(names[0] == "title"@ && names[1] == "name"@ && names[2] == "heading"@);
    }
}

proof fn lemma_first_is_unique(members: Seq<(Seq<char>, JsonTree)>, name: Seq<char>)
    ensures
        forall|i: int, j: int| #[trigger]
            first_named(members, i, name) && #[trigger] first_named(members, j, name) ==> i == j,
{
    assert forall|i: int, j: int| #[trigger]
        first_named(members, i, name) && #[trigger] first_named(members, j, name) implies i == j by {
        if i < j {
            assert(members[i].0 != name);
        } else if j < i {
            assert(members[j].0 != name);
        }
    }
}

/// A value's own line is a line of it.
proof fn lemma_own_line(t: JsonTree, line: Seq<char>)
    requires
        gives_line(t, line),
        line.len() > 0,
    ensures
        summary_lines(t).contains(line),
{
    match t {
        JsonTree::Text(s) => {
            assert(summary_lines(t)[0] == line);
        },
        JsonTree::Object(members) => {
            let (k, s) = choose|k: int, s: Seq<char>|
                #[trigger] is_heading(members, k, s) && trimmed(s) == line;
            let name = members[k].0;
            lemma_names(name);
            members_are_found_by_name(t, name);
            lemma_first_is_unique(members, name);
            assert(first_named(members, k, name));
            assert(member_text(t, name) == Some(s));
            assert(heading_line(t, name) == seq![line]);
            let a = heading_line(t, "title"@);
            let b = heading_line(t, "name"@);
            let c = heading_line(t, "heading"@);
            let all = summary_lines(t);
            if name == "title"@ {
                assert(all[0] == line);
            } else if name == "name"@ {
                assert(all[a.len() as int] == line);
            } else {
                assert(all[(a.len() + b.len()) as int] == line);
            }
        },
        _ => {},
    }
}

proof fn lemma_list_holds(items: Seq<JsonTree>, i: int, line: Seq<char>)
    requires
        0 <= i < items.len(),
        summary_lines(items[i]).contains(line),
    ensures
        list_lines(items).contains(line),
    decreases items.len(),
{
    let before = list_lines(items.drop_last());
    let last = summary_lines(items.last());
    if i < items.len() - 1 {
        lemma_list_holds(items.drop_last(), i, line);
        let k = choose|k: int| 0 <= k < before.len() && before[k] == line;
        assert((before + last)[k] == line);
    } else {
        let k = choose|k: int| 0 <= k < last.len() && last[k] == line;
        assert((before + last)[before.len() + k] == line);
    }
}

proof fn lemma_members_hold(members: Seq<(Seq<char>, JsonTree)>, i: int, line: Seq<char>)
    requires
        0 <= i < members.len(),
        !heading_name(members[i].0),
        summary_lines(members[i].1).contains(line),
    ensures
        member_lines(members).contains(line),
    decreases members.len(),
{
    let before = member_lines(members.drop_last());
    let last = summary_lines(members.last().1);
    if i < members.len() - 1 {
        lemma_members_hold(members.drop_last(), i, line);
        let k = choose|k: int| 0 <= k < before.len() && before[k] == line;
        assert((before + last)[k] == line);
        assert(member_lines(members)[k] == line);
    } else {
        let k = choose|k: int| 0 <= k < last.len() && last[k] == line;
        assert((before + last)[before.len() + k] == line);
    }
}

/// No line is made up: every line is a text, or a heading of an object, that can be reached from the root.
pub proof fn no_line_is_made_up(t: JsonTree, line: Seq<char>) -> (path: Seq<Step>)
    requires
        summary_lines(t).contains(line),
    ensures
        at_path(t, path) is Some,
        gives_line(at_path(t, path)->0, line),
        line.len() > 0,
    decreases t,
{
    let ls = summary_lines(t);
    let at = choose|at: int| 0 <= at < ls.len() && ls[at] == line;
    summary_lines_are_clean(t);
    assert(ls[at].len() > 0);
    match t {
        JsonTree::Text(s) => {
            assert(at_path(t, Seq::empty()) == Some(t));
            Seq::empty()
        },
        JsonTree::List(items) => {
            let i = lemma_list_source(items, line);
            let rest = no_line_is_made_up(items[i], line);
            let path = seq![Step::Item(i)] + rest;
            assert(path.skip(1) =~= rest);
            path
        },
        JsonTree::Object(members) => {
            let a = heading_line(t, "title"@);
            let b = heading_line(t, "name"@);
            let c = heading_line(t, "heading"@);
            let own = member_lines(members);
            if at < a.len() + b.len() + c.len() {
                let name = if at < a.len() {
                    "title"@
                } else if at < a.len() + b.len() {
                    "name"@
                } else {
                    "heading"@
                };
                assert(heading_line(t, name) == seq![line]);
                members_are_found_by_name(t, name);
                let s = member_text(t, name)->0;
                let k = choose|k: int|
                    #[trigger] first_named(members, k, name) && members[k].1 == JsonTree::Text(s);
                lemma_names(name);
                assert(is_heading(members, k, s));
                assert(at_path(t, Seq::empty()) == Some(t));
                Seq::empty()
            } else {
                assert(own[at - a.len() - b.len() - c.len()] == line);
                let i = lemma_member_source(members, line);
                lemma_names(members[i].0);
                let rest = no_line_is_made_up(members[i].1, line);
                let path = seq![Step::Member(i)] + rest;
                assert(path.skip(1) =~= rest);
                path
            }
        },
        _ => Seq::empty(),
    }
}

proof fn lemma_list_source(items: Seq<JsonTree>, line: Seq<char>) -> (i: int)
    requires
        list_lines(items).contains(line),
    ensures
        0 <= i < items.len(),
        summary_lines(items[i]).contains(line),
    decreases items.len(),
{
    let before = list_lines(items.drop_last());
    let last = summary_lines(items.last());
    let all = list_lines(items);
    let k = choose|k: int| 0 <= k < all.len() && all[k] == line;
    if k < before.len() {
        assert(before[k] == line);
        lemma_list_source(items.drop_last(), line)
    } else {
        assert(last[k - before.len()] == line);
        items.len() - 1
    }
}

proof fn lemma_member_source(members: Seq<(Seq<char>, JsonTree)>, line: Seq<char>) -> (i: int)
    requires
        member_lines(members).contains(line),
    ensures
        0 <= i < members.len(),
        !heading_name(members[i].0),
        summary_lines(members[i].1).contains(line),
    decreases members.len(),
{
    let before = member_lines(members.drop_last());
    let last = summary_lines(members.last().1);
    let all = member_lines(members);
    let k = choose|k: int| 0 <= k < all.len() && all[k] == line;
    if k < before.len() {
        assert(before[k] == line);
        lemma_member_source(members.drop_last(), line)
    } else {
        assert(last[k - before.len()] == line);
        members.len() - 1
    }
}

/// Lists are walked in order, and item by item.
pub proof fn lists_are_walked_in_order(a: Seq<JsonTree>, b: Seq<JsonTree>)
    ensures
        summary_lines(JsonTree::List(a + b)) == summary_lines(JsonTree::List(a)) + summary_lines(
            JsonTree::List(b),
        ),
        a.len() == 1 ==> summary_lines(JsonTree::List(a)) == summary_lines(a[0]),
    decreases b.len(),
{
    if a.len() == 1 {
        assert(list_lines(a.drop_last()) =~= Seq::empty());
        assert(list_lines(a) =~= summary_lines(a[0]));
    }
    if b.len() == 0 {
        assert(a + b =~= a);
        assert(list_lines(a) + list_lines(b) =~= list_lines(a));
    } else {
        lists_are_walked_in_order(a, b.drop_last());
        assert((a + b).drop_last() =~= a + b.drop_last());
        assert((a + b).last() == b.last());
        assert(list_lines(a + b) =~= list_lines(a) + list_lines(b));
    }
}

/// An object's title comes before all of its other lines, its name before all but the title, and its heading
/// before the lines of its other members, which come in order.
pub proof fn headings_come_first(members: Seq<(Seq<char>, JsonTree)>)
    ensures
        ({
            let t = JsonTree::Object(members);
            let title = shown_heading(members, "title"@);
            let name = shown_heading(members, "name"@);
            let heading = shown_heading(members, "heading"@);
            let heads = title + name + heading;
            &&& heads.is_prefix_of(summary_lines(t))
            &&& forall|m: Seq<(Seq<char>, JsonTree)>, more: Seq<(Seq<char>, JsonTree)>|
                members == #[trigger] (m + more) ==> summary_lines(t).skip(heads.len() as int)
                    == member_lines(m) + member_lines(more)
        }),
{
    let t = JsonTree::Object(members);
    lemma_shown_heading(members, "title"@);
    lemma_shown_heading(members, "name"@);
    lemma_shown_heading(members, "heading"@);
    let heads = heading_line(t, "title"@) + heading_line(t, "name"@) + heading_line(t, "heading"@);
    assert(summary_lines(t).skip(heads.len() as int) =~= member_lines(members));
    assert forall|m: Seq<(Seq<char>, JsonTree)>, more: Seq<(Seq<char>, JsonTree)>|
        members == #[trigger] (m + more) implies summary_lines(t).skip(heads.len() as int)
        == member_lines(m) + member_lines(more) by {
        lemma_members_in_order(m, more);
    }
}

/// Members are walked one by one, in order: each has all the lines of its value, whatever that is, but for a
/// title, a name or a heading, which has none here.
pub proof fn members_are_walked_in_order(
    a: Seq<(Seq<char>, JsonTree)>,
    b: Seq<(Seq<char>, JsonTree)>,
    name: Seq<char>,
    x: JsonTree,
)
    ensures
        member_lines(a + b) == member_lines(a) + member_lines(b),
        name == "title"@ || name == "name"@ || name == "heading"@ ==> member_lines(seq![(name, x)]).len()
            == 0,
        name != "title"@ && name != "name"@ && name != "heading"@ ==> member_lines(seq![(name, x)])
            == summary_lines(x),
{
    lemma_members_in_order(a, b);
    let one = seq![(name, x)];
    assert(one.drop_last() =~= Seq::empty());
    assert(member_lines(one.drop_last()).len() == 0);
    assert(Seq::<Seq<char>>::empty() + summary_lines(x) =~= summary_lines(x));
    assert(member_lines(one.drop_last()) + summary_lines(x) =~= summary_lines(x));
}

/// The line of a heading of an object, where it has one that is not blank.
pub open spec fn shown_heading(members: Seq<(Seq<char>, JsonTree)>, name: Seq<char>) -> Seq<Seq<char>> {
    if exists|k: int, s: Seq<char>|
        #[trigger] is_heading(members, k, s) && members[k].0 == name && trimmed(s).len() > 0 {
        let (k, s) = choose|k: int, s: Seq<char>|
            #[trigger] is_heading(members, k, s) && members[k].0 == name && trimmed(s).len() > 0;
        seq![trimmed(s)]
    } else {
        Seq::empty()
    }
}

proof fn lemma_shown_heading(members: Seq<(Seq<char>, JsonTree)>, name: Seq<char>)
    requires
        heading_name(name),
    ensures
        shown_heading(members, name) == heading_line(JsonTree::Object(members), name),
{
    let t = JsonTree::Object(members);
    lemma_names(name);
    members_are_found_by_name(t, name);
    lemma_first_is_unique(members, name);
    if exists|k: int, s: Seq<char>|
        #[trigger] is_heading(members, k, s) && members[k].0 == name && trimmed(s).len() > 0 {
        let (k, s) = choose|k: int, s: Seq<char>|
            #[trigger] is_heading(members, k, s) && members[k].0 == name && trimmed(s).len() > 0;
        assert(first_named(members, k, name));
        assert(member_text(t, name) == Some(s));
    } else if member_text(t, name) is Some {
        let s = member_text(t, name)->0;
        let k = choose|k: int|
            #[trigger] first_named(members, k, name) && members[k].1 == JsonTree::Text(s);
        assert(is_heading(members, k, s));
    }
}

proof fn lemma_members_in_order(a: Seq<(Seq<char>, JsonTree)>, b: Seq<(Seq<char>, JsonTree)>)
    ensures
        member_lines(a + b) == member_lines(a) + member_lines(b),
    decreases b.len(),
{
    if b.len() == 0 {
        assert(a + b =~= a);
        assert(member_lines(a) + member_lines(b) =~= member_lines(a));
    } else {
        lemma_members_in_order(a, b.drop_last());
        assert((a + b).drop_last() =~= a + b.drop_last());
        assert((a + b).last() == b.last());
        assert(member_lines(a + b) =~= member_lines(a) + member_lines(b));
    }
}

/// A stored summary that is blank is nothing, one that is not JSON is kept as it is, and one that is JSON is
/// its lines, each once, one under the other.
pub proof fn stored_summaries_are_kept(stored: Seq<char>)
    ensures
        all_white(stored) ==> flattened_summary(stored).len() == 0,
        !all_white(stored) && json_parsed(stored) is None ==> flattened_summary(stored) == stored,
        !all_white(stored) && json_parsed(stored) is Some ==> flattened_summary(stored) == joined(
            distinct(summary_lines(json_parsed(stored)->0)),
            "\n"@,
        ),
{
    blank_texts_are_trimmed_away(stored);
}

} // verus!
