//! Outlines as trees: what encloses a line, and what stands beside a symbol.

use vstd::prelude::*;
use vstd::string::StringExecFns;

use crate::matcher::lowercased;
use crate::text::texts;

verus! {

/// An entry of an outline.
#[derive(Debug)]
pub struct OutlineEntry {
    /// What it defines.
    pub name: String,
    /// What kind of definition it is.
    pub kind: String,
    /// Its first line.
    pub start_line: u32,
    /// Its last line.
    pub end_line: u32,
    /// The entries within it.
    pub children: Vec<OutlineEntry>,
}

/// What an entry says.
#[verifier::ext_equal]
pub struct EntryView {
    pub name: Seq<char>,
    pub kind: Seq<char>,
    pub start_line: u32,
    pub end_line: u32,
    pub children: Seq<EntryView>,
}

impl View for OutlineEntry {
    type V = EntryView;

    open spec fn view(&self) -> EntryView
        decreases self,
    {
        EntryView {
            name: self.name@,
            kind: self.kind@,
            start_line: self.start_line,
            end_line: self.end_line,
            children: Seq::new(
                self.children@.len(),
                |i: int|
                    if 0 <= i < self.children@.len() {
                        self.children@[i].view()
                    } else {
                        arbitrary()
                    },
            ),
        }
    }
}

/// What each entry of a list says.
pub open spec fn tree_views(v: Seq<OutlineEntry>) -> Seq<EntryView> {
    v.map_values(|e: OutlineEntry| e@)
}

/// The children of a view are the views of the children.
proof fn lemma_children(e: OutlineEntry)
    ensures
        e@.children == tree_views(e.children@),
{
    reveal_with_fuel(<OutlineEntry as View>::view, 2);
    assert forall|i: int| 0 <= i < e.children@.len() implies #[trigger] e@.children[i]
        == e.children@[i]@ by {}
    assert(e@.children =~= tree_views(e.children@));
}

/// The entry spans the line.
pub open spec fn spans(e: EntryView, line: u32) -> bool {
    e.start_line <= line <= e.end_line
}

/// The innermost entry that spans the line: of the last entry that does, the
/// innermost child that does, or else the entry itself.
pub open spec fn deepest(entries: Seq<EntryView>, line: u32) -> Option<EntryView>
    decreases entries,
{
    if entries.len() == 0 {
        None
    } else {
        let e = entries[entries.len() - 1];
        if spans(e, line) {
            match deepest(e.children, line) {
                Some(child) => Some(child),
                None => Some(e),
            }
        } else {
            deepest(entries.subrange(0, entries.len() - 1), line)
        }
    }
}

/// The innermost entry spans the line, and none of its children does.
pub proof fn law_deepest_is_innermost(entries: Seq<EntryView>, line: u32)
    ensures
        deepest(entries, line) matches Some(e) ==> spans(e, line) && deepest(e.children, line)
            is None && forall|i: int|
            0 <= i < e.children.len() ==> !spans(#[trigger] e.children[i], line),
        deepest(entries, line) is None ==> forall|i: int|
            0 <= i < entries.len() ==> !spans(#[trigger] entries[i], line),
    decreases entries,
{
    if entries.len() > 0 {
        let e = entries[entries.len() - 1];
        if spans(e, line) {
            law_deepest_is_innermost(e.children, line);
        } else {
            let front = entries.subrange(0, entries.len() - 1);
            law_deepest_is_innermost(front, line);
            if deepest(entries, line) is None {
                assert forall|i: int| 0 <= i < entries.len() implies !spans(
                    #[trigger] entries[i],
                    line,
                ) by {
                    if i < front.len() {
                        assert(front[i] == entries[i]);
                    }
                }
            }
        }
    }
}

/// The innermost entry that spans the line.
pub fn deepest_containing<'a>(entries: &'a Vec<OutlineEntry>, line: u32) -> (res: Option<
    &'a OutlineEntry,
>)
    ensures
        match res {
            Some(e) => deepest(tree_views(entries@), line) == Some(e@),
            None => deepest(tree_views(entries@), line) is None,
        },
    decreases entries,
{
    let ghost all = tree_views(entries@);
    let mut i: usize = entries.len();
    assert(all.subrange(0, i as int) =~= all);
    while i > 0
        invariant
            i <= entries@.len(),
            all == tree_views(entries@),
            deepest(all, line) == deepest(all.subrange(0, i as int), line),
        decreases i,
    {
        let e = &entries[i - 1];
        let ghost head = all.subrange(0, i as int);
        assert(head[head.len() - 1] == e@);
        assert(head.subrange(0, head.len() - 1) =~= all.subrange(0, i - 1));
        if e.start_line <= line && line <= e.end_line {
            proof {
                lemma_children(*e);
            }
            match deepest_containing(&e.children, line) {
                Some(child) => {
                    return Some(child);
                },
                None => {
                    return Some(e);
                },
            }
        }
        i = i - 1;
    }
    None
}

/// The entry is the one that is looked for.
pub open spec fn is_target(e: EntryView, name: Seq<char>, line: u32) -> bool {
    e.name == name && e.start_line == line
}

/// One of the entries is the one that is looked for.
pub open spec fn holds_target(entries: Seq<EntryView>, name: Seq<char>, line: u32) -> bool {
    exists|i: int| 0 <= i < entries.len() && is_target(#[trigger] entries[i], name, line)
}

/// The entries beside the one that is looked for.
pub open spec fn others(entries: Seq<EntryView>, name: Seq<char>, line: u32) -> Seq<EntryView>
    decreases entries.len(),
{
    if entries.len() == 0 {
        seq![]
    } else {
        let rest = others(entries.drop_last(), name, line);
        if is_target(entries.last(), name, line) {
            rest
        } else {
            rest.push(entries.last())
        }
    }
}

/// What stands beside the entry that is looked for, and the name of what they
/// stand in: these entries if it is one of them, else what the first of them
/// has within it.
pub open spec fn beside(
    scope: Seq<char>,
    entries: Seq<EntryView>,
    name: Seq<char>,
    line: u32,
) -> Option<(Seq<char>, Seq<EntryView>)>
    decreases entries, 1int,
{
    if holds_target(entries, name, line) {
        Some((scope, others(entries, name, line)))
    } else {
        beside_within(entries, name, line)
    }
}

/// What stands beside the entry that is looked for, within one of the entries.
pub open spec fn beside_within(entries: Seq<EntryView>, name: Seq<char>, line: u32) -> Option<
    (Seq<char>, Seq<EntryView>),
>
    decreases entries, 0int,
{
    if entries.len() == 0 {
        None
    } else {
        match beside(entries[0].name, entries[0].children, name, line) {
            Some(found) => Some(found),
            None => beside_within(entries.subrange(1, entries.len() as int), name, line),
        }
    }
}

/// What each entry of a list says.
pub open spec fn ref_views(v: Seq<&OutlineEntry>) -> Seq<EntryView> {
    v.map_values(|e: &OutlineEntry| e@)
}

/// What was found says what is wanted.
pub open spec fn tells(
    res: Option<(&String, Vec<&OutlineEntry>)>,
    wanted: Option<(Seq<char>, Seq<EntryView>)>,
) -> bool {
    match res {
        Some((scope, peers)) => wanted == Some((scope@, ref_views(peers@))),
        None => wanted is None,
    }
}

/// The entries beside the one that is looked for; none where it is not among
/// them.
fn peers_among<'a>(entries: &'a Vec<OutlineEntry>, name: &str, line: u32) -> (res: Option<
    Vec<&'a OutlineEntry>,
>)
    ensures
        match res {
            Some(peers) => {
                &&& holds_target(tree_views(entries@), name@, line)
                &&& ref_views(peers@) == others(tree_views(entries@), name@, line)
            },
            None => !holds_target(tree_views(entries@), name@, line),
        },
{
    let ghost all = tree_views(entries@);
    let mut found = false;
    let mut peers: Vec<&'a OutlineEntry> = Vec::new();
    let mut i: usize = 0;
    assert(all.take(0) =~= seq![]);
    assert(ref_views(peers@) =~= seq![]);
    while i < entries.len()
        invariant
            i <= entries@.len(),
            all == tree_views(entries@),
            found == holds_target(all.take(i as int), name@, line),
            ref_views(peers@) == others(all.take(i as int), name@, line),
        decreases entries@.len() - i,
    {
        let e = &entries[i];
        let ghost (head, next) = (all.take(i as int), all.take(i + 1));
        assert(next.drop_last() =~= head);
        assert(next.last() == e@);
        let ghost (was, before) = (found, peers@);
        if *e.name.as_str() == *name && e.start_line == line {
            found = true;
            assert(is_target(next[i as int], name@, line));
        } else {
            peers.push(e);
            assert(ref_views(peers@) =~= ref_views(before).push(e@));
        }
        assert(found == holds_target(next, name@, line)) by {
            if was {
                let k = choose|k: int|
                    0 <= k < head.len() && is_target(#[trigger] head[k], name@, line);
                assert(is_target(next[k], name@, line));
            }
            if holds_target(next, name@, line) {
                let k = choose|k: int|
                    0 <= k < next.len() && is_target(#[trigger] next[k], name@, line);
                if k < i {
                    assert(is_target(head[k], name@, line));
                }
            }
        }
        i = i + 1;
    }
    assert(all.take(i as int) =~= all);
    if found {
        Some(peers)
    } else {
        None
    }
}

/// What stands beside the entry that is looked for, within one of the entries:
/// the name of what encloses it, and what else that encloses.
pub fn sibling_in_children<'a>(entries: &'a Vec<OutlineEntry>, target: &str, line: u32) -> (res:
    Option<(&'a String, Vec<&'a OutlineEntry>)>)
    ensures
        tells(res, beside_within(tree_views(entries@), target@, line)),
    decreases entries,
{
    let ghost all = tree_views(entries@);
    let mut i: usize = 0;
    assert(all.subrange(0, all.len() as int) =~= all);
    while i < entries.len()
        invariant
            i <= entries@.len(),
            all == tree_views(entries@),
            beside_within(all, target@, line) == beside_within(
                all.subrange(i as int, all.len() as int),
                target@,
                line,
            ),
        decreases entries@.len() - i,
    {
        let e = &entries[i];
        let ghost tail = all.subrange(i as int, all.len() as int);
        assert(tail[0] == e@);
        assert(tail.subrange(1, tail.len() as int) =~= all.subrange(i + 1, all.len() as int));
        proof {
            lemma_children(*e);
            reveal_with_fuel(beside, 2);
            reveal_with_fuel(beside_within, 2);
        }
        let ghost within = beside(e@.name, e@.children, target@, line);
        assert(beside_within(tail, target@, line) == match within {
            Some(found) => Some(found),
            None => beside_within(tail.subrange(1, tail.len() as int), target@, line),
        });
        match peers_among(&e.children, target, line) {
            Some(peers) => {
                return Some((&e.name, peers));
            },
            None => {},
        }
        match sibling_in_children(&e.children, target, line) {
            Some(found) => {
                return Some(found);
            },
            None => {},
        }
        i = i + 1;
    }
    None
}

/// What stands beside the entry that is looked for, and the name of what they
/// stand in: `<file>` where that is the file itself.
pub fn sibling_peers<'a>(outline: &'a Vec<OutlineEntry>, target: &str, line: u32) -> (res: Option<
    (String, Vec<&'a OutlineEntry>),
>)
    ensures
        match res {
            Some((scope, peers)) => beside("<file>"@, tree_views(outline@), target@, line) == Some(
                (scope@, ref_views(peers@)),
            ),
            None => beside("<file>"@, tree_views(outline@), target@, line) is None,
        },
{
    match peers_among(outline, target, line) {
        Some(peers) => {
            return Some((String::from_str("<file>"), peers));
        },
        None => {},
    }
    match sibling_in_children(outline, target, line) {
        Some((scope, peers)) => Some((scope.clone(), peers)),
        None => None,
    }
}

/// The entry that is looked for does not stand beside itself.
pub proof fn law_no_symbol_is_its_own_sibling(
    scope: Seq<char>,
    entries: Seq<EntryView>,
    name: Seq<char>,
    line: u32,
)
    ensures
        beside(scope, entries, name, line) matches Some(found) ==> !holds_target(
            found.1,
            name,
            line,
        ),
    decreases entries, 1int,
{
    if holds_target(entries, name, line) {
        lemma_others(entries, name, line);
    } else {
        lemma_none_within(entries, name, line);
    }
}

proof fn lemma_none_within(entries: Seq<EntryView>, name: Seq<char>, line: u32)
    ensures
        beside_within(entries, name, line) matches Some(found) ==> !holds_target(
            found.1,
            name,
            line,
        ),
    decreases entries, 0int,
{
    if entries.len() > 0 {
        law_no_symbol_is_its_own_sibling(entries[0].name, entries[0].children, name, line);
        lemma_none_within(entries.subrange(1, entries.len() as int), name, line);
    }
}

proof fn lemma_others(entries: Seq<EntryView>, name: Seq<char>, line: u32)
    ensures
        !holds_target(others(entries, name, line), name, line),
    decreases entries.len(),
{
    if entries.len() > 0 {
        let rest = others(entries.drop_last(), name, line);
        lemma_others(entries.drop_last(), name, line);
        let all = others(entries, name, line);
        if holds_target(all, name, line) {
            let k = choose|k: int| 0 <= k < all.len() && is_target(#[trigger] all[k], name, line);
            if k < rest.len() {
                assert(is_target(rest[k], name, line));
            }
        }
    }
}

/// A symbol beside another.
#[derive(Debug)]
pub struct SiblingHit {
    /// Its name.
    pub name: String,
    /// What kind of definition it is, in lower case.
    pub kind: String,
    /// The path of its file.
    pub path: String,
    /// Its first line.
    pub line: u32,
}

/// What a sibling says.
#[verifier::ext_equal]
pub struct SiblingView {
    pub name: Seq<char>,
    pub kind: Seq<char>,
    pub path: Seq<char>,
    pub line: u32,
}

impl View for SiblingHit {
    type V = SiblingView;

    open spec fn view(&self) -> SiblingView {
        SiblingView { name: self.name@, kind: self.kind@, path: self.path@, line: self.line }
    }
}

/// What each sibling of a list says.
pub open spec fn sibling_views(v: Seq<SiblingHit>) -> Seq<SiblingView> {
    v.map_values(|h: SiblingHit| h@)
}

/// The sibling of an entry.
pub open spec fn sibling_of(e: EntryView, path: Seq<char>) -> SiblingView {
    SiblingView { name: e.name, kind: lowercased(e.kind), path, line: e.start_line }
}

/// The sibling is listed already.
pub open spec fn sibling_listed(hits: Seq<SiblingView>, s: SiblingView) -> bool {
    exists|i: int|
        0 <= i < hits.len() && (#[trigger] hits[i]).name == s.name && hits[i].path == s.path
            && hits[i].line == s.line
}

/// The siblings once the entries of a file have joined them, each once and no
/// more than `limit` in all.
pub open spec fn with_peers(
    hits: Seq<SiblingView>,
    peers: Seq<EntryView>,
    path: Seq<char>,
    limit: int,
) -> Seq<SiblingView>
    decreases peers.len(),
{
    if peers.len() == 0 {
        hits
    } else {
        let so_far = with_peers(hits, peers.drop_last(), path, limit);
        let s = sibling_of(peers.last(), path);
        if so_far.len() >= limit || sibling_listed(so_far, s) {
            so_far
        } else {
            so_far.push(s)
        }
    }
}

/// The siblings once a definition has been looked at.
pub open spec fn with_definition(
    hits: Seq<SiblingView>,
    outline: Seq<EntryView>,
    name: Seq<char>,
    line: u32,
    path: Seq<char>,
    limit: int,
) -> Seq<SiblingView> {
    match beside("<file>"@, outline, name, line) {
        Some((_, peers)) => with_peers(hits, peers, path, limit),
        None => hits,
    }
}

/// Whether a sibling is listed already.
fn is_sibling_listed(hits: &Vec<SiblingHit>, name: &str, path: &str, line: u32) -> (res: bool)
    ensures
        res == (exists|i: int|
            0 <= i < hits@.len() && (#[trigger] sibling_views(hits@)[i]).name == name@
                && sibling_views(hits@)[i].path == path@ && sibling_views(hits@)[i].line == line),
{
    let mut i: usize = 0;
    while i < hits.len()
        invariant
            i <= hits@.len(),
            forall|k: int|
                0 <= k < i ==> !((#[trigger] sibling_views(hits@)[k]).name == name@
                    && sibling_views(hits@)[k].path == path@ && sibling_views(hits@)[k].line
                    == line),
        decreases hits@.len() - i,
    {
        assert(sibling_views(hits@)[i as int] == hits@[i as int]@);
        if hits[i].line == line && *hits[i].name.as_str() == *name && *hits[i].path.as_str()
            == *path {
            return true;
        }
        i = i + 1;
    }
    false
}

/// Adds the siblings of a definition, which stands on line `line` of the file
/// at `path`. Says whether there are as many as wanted.
pub fn collect_siblings(
    hits: &mut Vec<SiblingHit>,
    outline: &Vec<OutlineEntry>,
    name: &str,
    line: u32,
    path: &str,
    limit: usize,
) -> (res: bool)
    ensures
        sibling_views(final(hits)@) == with_definition(
            sibling_views(old(hits)@),
            tree_views(outline@),
            name@,
            line,
            path@,
            limit as int,
        ),
        res == (final(hits)@.len() >= limit),
{
    match sibling_peers(outline, name, line) {
        None => {},
        Some((_, peers)) => {
            let ghost all = ref_views(peers@);
            let ghost before = sibling_views(hits@);
            let mut i: usize = 0;
            assert(all.take(0) =~= seq![]);
            while i < peers.len()
                invariant
                    i <= peers@.len(),
                    all == ref_views(peers@),
                    sibling_views(hits@) == with_peers(
                        before,
                        all.take(i as int),
                        path@,
                        limit as int,
                    ),
                decreases peers@.len() - i,
            {
                let p = peers[i];
                assert(all.take(i + 1).drop_last() =~= all.take(i as int));
                assert(all.take(i + 1).last() == p@);
                let ghost so_far = sibling_views(hits@);
                let ghost s = sibling_of(p@, path@);
                assert(so_far.len() == hits@.len());
                let listed = is_sibling_listed(hits, p.name.as_str(), path, p.start_line);
                assert(listed == sibling_listed(so_far, s));
                if hits.len() < limit && !listed {
                    let ghost h0 = hits@;
                    let hit = SiblingHit {
                        name: p.name.clone(),
                        kind: p.kind.as_str().to_lowercase(),
                        path: path.to_owned(),
                        line: p.start_line,
                    };
                    assert(hit@ =~= s);
                    hits.push(hit);
                    assert(sibling_views(hits@) =~= sibling_views(h0).push(s));
                }
                i = i + 1;
            }
            assert(all.take(i as int) =~= all);
        },
    }
    hits.len() >= limit
}

/// The names of the imports among the entries.
pub open spec fn imports_of(entries: Seq<EntryView>) -> Seq<Seq<char>>
    decreases entries.len(),
{
    if entries.len() == 0 {
        seq![]
    } else {
        let rest = imports_of(entries.drop_last());
        if entries.last().kind == "Import"@ {
            rest.push(entries.last().name)
        } else {
            rest
        }
    }
}

/// The names of the imports among the entries.
pub fn list_imports(entries: &Vec<OutlineEntry>) -> (res: Vec<String>)
    ensures
        texts(res@) == imports_of(tree_views(entries@)),
{
    let ghost all = tree_views(entries@);
    let mut res: Vec<String> = Vec::new();
    let mut i: usize = 0;
    assert(all.take(0) =~= seq![]);
    assert(texts(res@) =~= seq![]);
    while i < entries.len()
        invariant
            i <= entries@.len(),
            all == tree_views(entries@),
            texts(res@) == imports_of(all.take(i as int)),
        decreases entries@.len() - i,
    {
        let e = &entries[i];
        assert(all.take(i + 1).drop_last() =~= all.take(i as int));
        assert(all.take(i + 1).last() == e@);
        let ghost before = res@;
        if *e.kind.as_str() == *"Import" {
            res.push(e.name.clone());
            assert(texts(res@) =~= texts(before).push(e@.name));
        }
        i = i + 1;
    }
    assert(all.take(i as int) =~= all);
    res
}

proof fn lemma_others_join(a: Seq<EntryView>, b: Seq<EntryView>, name: Seq<char>, line: u32)
    ensures
        others(a + b, name, line) == others(a, name, line) + others(b, name, line),
    decreases b.len(),
{
    if b.len() == 0 {
        assert(a + b =~= a);
        assert(others(a, name, line) + others(b, name, line) =~= others(a, name, line));
    } else {
        lemma_others_join(a, b.drop_last(), name, line);
        assert((a + b).drop_last() =~= a + b.drop_last());
        assert((a + b).last() == b.last());
        assert(others(a + b, name, line) =~= others(a, name, line) + others(b, name, line));
    }
}

/// Every entry of a scope but the one that is looked for is a peer, whether it
/// stands before that one or behind it, and the peers come in the order of the
/// scope: what stands before the target, and then what stands behind it.
pub proof fn law_all_others_are_peers(
    scope: Seq<char>,
    before: Seq<EntryView>,
    target: EntryView,
    behind: Seq<EntryView>,
)
    requires
        forall|i: int|
            0 <= i < before.len() ==> !((#[trigger] before[i]).name == target.name
                && before[i].start_line == target.start_line),
        forall|i: int|
            0 <= i < behind.len() ==> !((#[trigger] behind[i]).name == target.name
                && behind[i].start_line == target.start_line),
    ensures
        beside(scope, before + seq![target] + behind, target.name, target.start_line) == Some(
            (scope, before + behind),
        ),
{
    let (name, line) = (target.name, target.start_line);
    let all = before + seq![target] + behind;
    assert(is_target(all[before.len() as int], name, line));
    lemma_others_join(before + seq![target], behind, name, line);
    lemma_others_join(before, seq![target], name, line);
    lemma_no_target_all_others(before, name, line);
    lemma_no_target_all_others(behind, name, line);
    assert(others(seq![target], name, line) =~= seq![]) by {
        reveal_with_fuel(others, 2);
        assert(seq![target].drop_last() =~= seq![]);
        assert(seq![target].last() == target);
    }
    assert(others(all, name, line) =~= before + behind);
}

proof fn lemma_no_target_all_others(entries: Seq<EntryView>, name: Seq<char>, line: u32)
    requires
        forall|i: int|
            0 <= i < entries.len() ==> !((#[trigger] entries[i]).name == name
                && entries[i].start_line == line),
    ensures
        others(entries, name, line) == entries,
        !holds_target(entries, name, line),
    decreases entries.len(),
{
    if entries.len() > 0 {
        let front = entries.drop_last();
        assert forall|i: int| 0 <= i < front.len() implies !((#[trigger] front[i]).name == name
            && front[i].start_line == line) by {
            assert(front[i] == entries[i]);
        }
        lemma_no_target_all_others(front, name, line);
        assert(!is_target(entries[entries.len() - 1], name, line));
        assert(others(entries, name, line) =~= entries);
    } else {
        assert(others(entries, name, line) =~= entries);
    }
}

/// `list` is what the scope with the name `called` holds: the entries themselves,
/// or what is within one of them.
pub open spec fn is_scope(
    scope: Seq<char>,
    entries: Seq<EntryView>,
    called: Seq<char>,
    list: Seq<EntryView>,
) -> bool
    decreases entries,
{
    ||| called == scope && list == entries
    ||| exists|i: int|
        0 <= i < entries.len() && is_scope(
            (#[trigger] entries[i]).name,
            entries[i].children,
            called,
            list,
        )
}

/// The symbol is in the list, and `peers` holds each other entry of the list and
/// nothing else.
pub open spec fn are_the_others(
    peers: Seq<EntryView>,
    list: Seq<EntryView>,
    name: Seq<char>,
    line: u32,
) -> bool {
    &&& exists|i: int|
        0 <= i < list.len() && (#[trigger] list[i]).name == name && list[i].start_line == line
    &&& forall|e: EntryView| #[trigger]
        peers.contains(e) <==> list.contains(e) && !(e.name == name && e.start_line == line)
}

proof fn lemma_scope_within(
    scope: Seq<char>,
    entries: Seq<EntryView>,
    i: int,
    called: Seq<char>,
    list: Seq<EntryView>,
)
    requires
        0 <= i < entries.len(),
        is_scope(entries[i].name, entries[i].children, called, list),
    ensures
        is_scope(scope, entries, called, list),
{
}

proof fn lemma_others_are_those(entries: Seq<EntryView>, name: Seq<char>, line: u32, e: EntryView)
    ensures
        others(entries, name, line).contains(e) <==> entries.contains(e) && !(e.name == name
            && e.start_line == line),
    decreases entries.len(),
{
    let found = others(entries, name, line);
    if entries.len() > 0 {
        let front = entries.drop_last();
        let rest = others(front, name, line);
        lemma_others_are_those(front, name, line, e);
        if found.contains(e) {
            let k = found.index_of(e);
            if k < rest.len() {
                assert(rest[k] == e);
                assert(entries[front.index_of(e)] == e);
            } else {
                assert(entries[entries.len() - 1] == e);
            }
        }
        if entries.contains(e) && !(e.name == name && e.start_line == line) {
            let k = entries.index_of(e);
            if k < front.len() {
                assert(front[k] == e);
                assert(found[rest.index_of(e)] == e);
            } else {
                assert(found[rest.len() as int] == e);
            }
        }
    }
}

/// The peers of a symbol are those of one scope that holds it: each entry of that
/// scope is one of them, unless it is the symbol itself, and nothing else is. No
/// peers are found only if no scope holds the symbol.
pub proof fn law_peers_are_those_of_a_scope(
    scope: Seq<char>,
    entries: Seq<EntryView>,
    name: Seq<char>,
    line: u32,
)
    ensures
        beside(scope, entries, name, line) matches Some((called, peers)) ==> exists|
            list: Seq<EntryView>,
        | #[trigger]
            is_scope(scope, entries, called, list) && are_the_others(peers, list, name, line),
        beside(scope, entries, name, line) is None ==> forall|
            called: Seq<char>,
            list: Seq<EntryView>,
            i: int,
        | #[trigger]
            is_scope(scope, entries, called, list) && 0 <= i < list.len() ==> !((
            #[trigger] list[i]).name == name && list[i].start_line == line),
    decreases entries, 1int,
{
    reveal_with_fuel(beside, 2);
    reveal_with_fuel(beside_within, 2);
    if holds_target(entries, name, line) {
        let peers = others(entries, name, line);
        assert(is_scope(scope, entries, scope, entries));
        let i = choose|i: int|
            0 <= i < entries.len() && is_target(#[trigger] entries[i], name, line);
        assert(entries[i].name == name && entries[i].start_line == line);
        assert forall|e: EntryView| #[trigger] peers.contains(e) <==> entries.contains(e) && !(
        e.name == name && e.start_line == line) by {
            lemma_others_are_those(entries, name, line, e);
        }
        assert(are_the_others(peers, entries, name, line));
        if let Some((called, found)) = beside(scope, entries, name, line) {
            assert(called == scope && found == peers);
            assert(is_scope(scope, entries, called, entries) && are_the_others(
                found,
                entries,
                name,
                line,
            ));
        }
    } else {
        assert(entries.subrange(0, entries.len() as int) =~= entries);
        lemma_within_a_scope(scope, entries, entries, 0, name, line);
        let found = beside(scope, entries, name, line);
        assert(found == beside_within(entries, name, line));
        if let Some((called, peers)) = found {
            let list = choose|list: Seq<EntryView>| #[trigger]
                is_scope(scope, entries, called, list) && are_the_others(peers, list, name, line);
            assert(is_scope(scope, entries, called, list));
            assert(are_the_others(peers, list, name, line));
        } else {
            assert forall|called: Seq<char>, list: Seq<EntryView>, i: int|
                #[trigger] is_scope(scope, entries, called, list) && 0 <= i
                    < list.len() implies !((#[trigger] list[i]).name == name && list[i].start_line
                == line) by {
                if called == scope && list == entries {
                    assert(!is_target(entries[i], name, line));
                } else {
                    let k = choose|k: int|
                        0 <= k < entries.len() && is_scope(
                            (#[trigger] entries[k]).name,
                            entries[k].children,
                            called,
                            list,
                        );
                    assert(is_scope(entries[k].name, entries[k].children, called, list));
                    law_peers_are_those_of_a_scope(
                        entries[k].name,
                        entries[k].children,
                        name,
                        line,
                    );
                }
            }
        }
    }
}

proof fn lemma_within_a_scope(
    scope: Seq<char>,
    all: Seq<EntryView>,
    entries: Seq<EntryView>,
    from: int,
    name: Seq<char>,
    line: u32,
)
    requires
        0 <= from <= all.len(),
        entries == all.subrange(from, all.len() as int),
    ensures
        match beside_within(entries, name, line) {
            Some((called, peers)) => exists|list: Seq<EntryView>| #[trigger]
                is_scope(scope, all, called, list) && are_the_others(peers, list, name, line),
            None => forall|k: int|
                from <= k < all.len() ==> beside(
                    (#[trigger] all[k]).name,
                    all[k].children,
                    name,
                    line,
                ) is None,
        },
    decreases entries, 0int,
{
    reveal_with_fuel(beside, 2);
    reveal_with_fuel(beside_within, 2);
    if entries.len() > 0 {
        let first = entries[0];
        assert(first == all[from]);
        law_peers_are_those_of_a_scope(first.name, first.children, name, line);
        match beside(first.name, first.children, name, line) {
            Some((called, peers)) => {
                let list = choose|list: Seq<EntryView>| #[trigger]
                    is_scope(first.name, first.children, called, list) && are_the_others(
                    peers,
                    list,
                    name,
                    line,
                );
                lemma_scope_within(scope, all, from, called, list);
            },
            None => {
                let rest = entries.subrange(1, entries.len() as int);
                assert(rest =~= all.subrange(from + 1, all.len() as int));
                lemma_within_a_scope(scope, all, rest, from + 1, name, line);
            },
        }
    }
}

/// The innermost entry around a line: it holds the line, and none of the entries
/// within it does. It is one of the entries or within one of them.
pub proof fn law_innermost_entry(scope: Seq<char>, entries: Seq<EntryView>, line: u32)
    ensures
        deepest(entries, line) matches Some(e) ==> {
            &&& e.start_line <= line <= e.end_line
            &&& forall|i: int|
                0 <= i < e.children.len() ==> !((#[trigger] e.children[i]).start_line <= line
                    <= e.children[i].end_line)
            &&& exists|called: Seq<char>, list: Seq<EntryView>| #[trigger]
                is_scope(scope, entries, called, list) && list.contains(e)
        },
        deepest(entries, line) is None ==> forall|i: int|
            0 <= i < entries.len() ==> !((#[trigger] entries[i]).start_line <= line
                <= entries[i].end_line),
    decreases entries,
{
    law_deepest_is_innermost(entries, line);
    if let Some(e) = deepest(entries, line) {
        assert forall|i: int| 0 <= i < e.children.len() implies !((
        #[trigger] e.children[i]).start_line <= line <= e.children[i].end_line) by {
            assert(!spans(e.children[i], line));
        }
        let last = entries[entries.len() - 1];
        if spans(last, line) {
            law_innermost_entry(last.name, last.children, line);
            if let Some(child) = deepest(last.children, line) {
                let (called, list) = choose|called: Seq<char>, list: Seq<EntryView>| #[trigger]
                    is_scope(last.name, last.children, called, list) && list.contains(child);
                lemma_scope_within(scope, entries, entries.len() - 1, called, list);
                assert(is_scope(scope, entries, called, list) && list.contains(e));
            } else {
                assert(entries.contains(last));
                assert(is_scope(scope, entries, scope, entries));
            }
        } else {
            let front = entries.subrange(0, entries.len() - 1);
            law_innermost_entry(scope, front, line);
            let (called, list) = choose|called: Seq<char>, list: Seq<EntryView>| #[trigger]
                is_scope(scope, front, called, list) && list.contains(e);
            if called == scope && list == front {
                let k = front.index_of(e);
                assert(entries[k] == e);
                assert(entries.contains(e));
                assert(is_scope(scope, entries, scope, entries));
            } else {
                let k = choose|k: int|
                    0 <= k < front.len() && is_scope(
                        (#[trigger] front[k]).name,
                        front[k].children,
                        called,
                        list,
                    );
                assert(entries[k] == front[k]);
                lemma_scope_within(scope, entries, k, called, list);
                assert(is_scope(scope, entries, called, list) && list.contains(e));
            }
        }
    } else {
        assert forall|i: int| 0 <= i < entries.len() implies !((#[trigger] entries[i]).start_line
            <= line <= entries[i].end_line) by {
            assert(!spans(entries[i], line));
        }
    }
}

/// Of several entries around a line, the last one counts.
pub proof fn law_last_entry_counts(entries: Seq<EntryView>, e: EntryView, line: u32)
    ensures
        !(e.start_line <= line <= e.end_line) ==> deepest(entries.push(e), line) == deepest(
            entries,
            line,
        ),
        e.start_line <= line <= e.end_line && deepest(e.children, line) is None ==> deepest(
            entries.push(e),
            line,
        ) == Some(e),
        e.start_line <= line <= e.end_line && deepest(e.children, line) is Some ==> deepest(
            entries.push(e),
            line,
        ) == deepest(e.children, line),
{
    let all = entries.push(e);
    assert(all.subrange(0, all.len() - 1) =~= entries);
    assert(all[all.len() - 1] == e);
    reveal_with_fuel(deepest, 2);
}

proof fn lemma_peers_grow(
    hits: Seq<SiblingView>,
    peers: Seq<EntryView>,
    path: Seq<char>,
    limit: int,
)
    ensures
        ({
            let all = with_peers(hits, peers, path, limit);
            &&& all.len() >= hits.len()
            &&& forall|i: int| 0 <= i < hits.len() ==> #[trigger] all[i] == hits[i]
            &&& forall|i: int|
                hits.len() <= i < all.len() ==> exists|k: int|
                    0 <= k < peers.len() && #[trigger] all[i] == sibling_of(
                        #[trigger] peers[k],
                        path,
                    )
            &&& all.len() < limit ==> forall|k: int|
                0 <= k < peers.len() ==> sibling_listed(
                    all,
                    sibling_of(#[trigger] peers[k], path),
                )
            &&& hits.len() <= limit ==> all.len() <= limit
        }),
    decreases peers.len(),
{
    if peers.len() > 0 {
        let front = peers.drop_last();
        lemma_peers_grow(hits, front, path, limit);
        let before = with_peers(hits, front, path, limit);
        let all = with_peers(hits, peers, path, limit);
        let s = sibling_of(peers.last(), path);
        assert forall|i: int| hits.len() <= i < all.len() implies exists|k: int|
            0 <= k < peers.len() && #[trigger] all[i] == sibling_of(#[trigger] peers[k], path) by {
            if i < before.len() {
                assert(all[i] == before[i]);
                let k = choose|k: int|
                    0 <= k < front.len() && before[i] == sibling_of(#[trigger] front[k], path);
                assert(peers[k] == front[k]);
            } else {
                assert(all[i] == sibling_of(peers[peers.len() - 1], path));
            }
        }
        if all.len() < limit {
            assert forall|k: int| 0 <= k < peers.len() implies sibling_listed(
                all,
                sibling_of(#[trigger] peers[k], path),
            ) by {
                let wanted = sibling_of(peers[k], path);
                if k < front.len() {
                    assert(front[k] == peers[k]);
                    assert(sibling_listed(before, wanted));
                    let i = choose|i: int|
                        0 <= i < before.len() && (#[trigger] before[i]).name == wanted.name
                            && before[i].path == wanted.path && before[i].line == wanted.line;
                    assert(all[i] == before[i]);
                } else if !sibling_listed(before, s) {
                    assert(all[before.len() as int] == s);
                }
            }
        }
    }
}

/// What is listed of the siblings of a definition: each entry beside it, by its name,
/// its kind in lower case, the path and its first line, unless the limit is reached;
/// and nothing else. What was listed before stays in front.
pub proof fn law_siblings_are_listed(
    hits: Seq<SiblingView>,
    outline: Seq<EntryView>,
    name: Seq<char>,
    line: u32,
    path: Seq<char>,
    limit: int,
)
    requires
        hits.len() <= limit,
    ensures
        ({
            let all = with_definition(hits, outline, name, line, path, limit);
            match beside("<file>"@, outline, name, line) {
                None => all == hits,
                Some((_, peers)) => {
                    &&& hits.len() <= all.len() <= limit
                    &&& forall|i: int| 0 <= i < hits.len() ==> #[trigger] all[i] == hits[i]
                    &&& forall|i: int|
                        hits.len() <= i < all.len() ==> (#[trigger] all[i]).path == path && exists|
                            k: int,
                        |
                            0 <= k < peers.len() && (#[trigger] peers[k]).name == all[i].name
                                && peers[k].start_line == all[i].line && lowercased(peers[k].kind)
                                == all[i].kind
                    &&& all.len() < limit ==> forall|k: int|
                        0 <= k < peers.len() ==> exists|i: int|
                            0 <= i < all.len() && (#[trigger] all[i]).name == (
                            #[trigger] peers[k]).name && all[i].line == peers[k].start_line
                                && all[i].path == path
                },
            }
        }),
{
    let all = with_definition(hits, outline, name, line, path, limit);
    if let Some((_, peers)) = beside("<file>"@, outline, name, line) {
        lemma_peers_grow(hits, peers, path, limit);
        assert forall|i: int| hits.len() <= i < all.len() implies (#[trigger] all[i]).path == path
            && exists|k: int|
            0 <= k < peers.len() && (#[trigger] peers[k]).name == all[i].name
                && peers[k].start_line == all[i].line && lowercased(peers[k].kind)
                == all[i].kind by {
            let k = choose|k: int|
                0 <= k < peers.len() && all[i] == sibling_of(#[trigger] peers[k], path);
            assert(peers[k].name == all[i].name);
        }
        if all.len() < limit {
            assert forall|k: int| 0 <= k < peers.len() implies exists|i: int|
                0 <= i < all.len() && (#[trigger] all[i]).name == (#[trigger] peers[k]).name
                    && all[i].line == peers[k].start_line && all[i].path == path by {
                let wanted = sibling_of(peers[k], path);
                assert(sibling_listed(all, wanted));
                let i = choose|i: int|
                    0 <= i < all.len() && (#[trigger] all[i]).name == wanted.name && all[i].path
                        == wanted.path && all[i].line == wanted.line;
                assert(all[i].name == peers[k].name);
            }
        }
    }
}

/// No sibling is listed twice.
pub proof fn law_siblings_are_listed_once(
    hits: Seq<SiblingView>,
    peers: Seq<EntryView>,
    path: Seq<char>,
    limit: int,
    i: int,
    j: int,
)
    requires
        0 <= i < j < with_peers(hits, peers, path, limit).len(),
        hits.len() <= j,
    ensures
        ({
            let all = with_peers(hits, peers, path, limit);
            all[i].name != all[j].name || all[i].path != all[j].path || all[i].line != all[j].line
        }),
    decreases peers.len(),
{
    let before = with_peers(hits, peers.drop_last(), path, limit);
    let all = with_peers(hits, peers, path, limit);
    if j < before.len() {
        law_siblings_are_listed_once(hits, peers.drop_last(), path, limit, i, j);
        assert(all[i] == before[i] && all[j] == before[j]);
    } else {
        assert(all[i] == before[i]);
        assert(all[j] == sibling_of(peers.last(), path));
    }
}

/// The imports of a file are the names of its entries of that kind, in their order.
pub proof fn law_imports(entries: Seq<EntryView>, e: EntryView)
    ensures
        imports_of(seq![]) == Seq::<Seq<char>>::empty(),
        e.kind == "Import"@ ==> imports_of(entries.push(e)) == imports_of(entries).push(e.name),
        e.kind != "Import"@ ==> imports_of(entries.push(e)) == imports_of(entries),
{
    assert(entries.push(e).drop_last() =~= entries);
}

} // verus!
