//! Which files a search looks at, by globs on their paths.

use vstd::prelude::*;

use crate::commands::grep::GrepError;
use crate::paths::base_name;
use crate::paths::display_path;
use crate::paths::file_name;
use crate::paths::shown_path;
use crate::text::chars_of;
use crate::text::text_between;
use crate::text::texts;

verus! {

/// A glob.
#[verifier::external_type_specification]
#[verifier::external_body]
pub struct ExGlob(globset::Glob);

/// A set of globs that is being gathered.
#[verifier::external_type_specification]
#[verifier::external_body]
pub struct ExGlobSetBuilder(globset::GlobSetBuilder);

/// A set of globs.
#[verifier::external_type_specification]
#[verifier::external_body]
pub struct ExGlobSet(globset::GlobSet);

/// The pattern that a glob was made from, in which `*` and `?` do not match a
/// slash.
pub uninterp spec fn glob_source(glob: globset::Glob) -> Seq<char>;

/// The patterns gathered so far.
pub uninterp spec fn gathered(builder: globset::GlobSetBuilder) -> Seq<Seq<char>>;

/// The patterns of a set.
pub uninterp spec fn held(set: globset::GlobSet) -> Seq<Seq<char>>;

/// The message with which a pattern is refused, or `None` where it is a glob, on a
/// target where `\` separates no paths.
pub uninterp spec fn glob_refusal(pattern: Seq<char>) -> Option<Seq<char>>;

/// The message with which patterns are refused as a set, or `None`, on a target
/// where `\` separates no paths.
pub uninterp spec fn glob_set_refusal(patterns: Seq<Seq<char>>) -> Option<Seq<char>>;

/// Whether a path matches a pattern, on a target where `\` separates no paths.
pub uninterp spec fn glob_matches(pattern: Seq<char>, path: Seq<char>) -> bool;

/// `globset::GlobBuilder` with `literal_separator` on: the glob with the given
/// pattern, or why there is none. Where `\` separates no paths, this depends
/// on the pattern alone.
#[verifier::external_body]
fn glob_build(pattern: &str) -> (res: Result<globset::Glob, String>)
    ensures
        match res {
            Ok(glob) => glob_refusal(pattern@) is None && glob_source(glob) == pattern@,
            Err(detail) => glob_refusal(pattern@) == Some(detail@),
        },
{
    globset::GlobBuilder::new(pattern)
        .literal_separator(true)
        .build()
        .map_err(|e| e.to_string())
}

/// `globset::GlobSetBuilder::new`: no patterns yet.
pub assume_specification[ globset::GlobSetBuilder::new ]() -> (res: globset::GlobSetBuilder)
    ensures
        gathered(res) == Seq::<Seq<char>>::empty(),
;

/// `globset::GlobSetBuilder::add`: one pattern more, behind the others.
#[verifier::external_body]
fn glob_add(builder: &mut globset::GlobSetBuilder, glob: globset::Glob)
    ensures
        gathered(*final(builder)) == gathered(*old(builder)).push(glob_source(glob)),
{
    builder.add(glob);
}

/// `globset::GlobSetBuilder::build`: the set of the patterns, or why there is
/// none. A set without patterns can always be had.
#[verifier::external_body]
fn glob_set_build(builder: &globset::GlobSetBuilder) -> (res: Result<globset::GlobSet, String>)
    ensures
        match res {
            Ok(set) => glob_set_refusal(gathered(*builder)) is None && held(set) == gathered(
                *builder,
            ),
            Err(detail) => glob_set_refusal(gathered(*builder)) == Some(detail@),
        },
        gathered(*builder).len() == 0 ==> res is Ok,
{
    builder.build().map_err(|e| e.to_string())
}

/// `globset::GlobSet::is_match`: whether one of the patterns matches the path.
/// Where `\` separates no paths, this depends on the patterns and the path
/// alone.
#[verifier::external_body]
fn glob_set_is_match(set: &globset::GlobSet, path: &str) -> (res: bool)
    ensures
        res == (exists|i: int|
            (0 <= i < held(*set).len() && glob_matches(#[trigger] held(*set)[i], path@))),
{
    set.is_match(path)
}

/// One of the patterns matches the path.
pub open spec fn one_matches(patterns: Seq<Seq<char>>, path: Seq<char>) -> bool {
    exists|i: int| 0 <= i < patterns.len() && glob_matches(#[trigger] patterns[i], path)
}

/// The pattern excludes files.
pub open spec fn negated(pattern: Seq<char>) -> bool {
    pattern.len() > 0 && pattern[0] == '!'
}

/// The glob of a pattern.
pub open spec fn glob_part(pattern: Seq<char>) -> Seq<char> {
    if negated(pattern) {
        pattern.skip(1)
    } else {
        pattern
    }
}

/// The globs of the patterns that exclude, or of those that do not.
pub open spec fn globs_of(patterns: Seq<Seq<char>>, excluding: bool) -> Seq<Seq<char>>
    decreases patterns.len(),
{
    if patterns.len() == 0 {
        seq![]
    } else {
        let rest = globs_of(patterns.drop_last(), excluding);
        if negated(patterns.last()) == excluding {
            rest.push(glob_part(patterns.last()))
        } else {
            rest
        }
    }
}

/// The first of the patterns that is no glob, if there is one.
pub open spec fn first_refused(patterns: Seq<Seq<char>>) -> Option<Seq<char>>
    decreases patterns.len(),
{
    if patterns.len() == 0 {
        None
    } else if glob_refusal(glob_part(patterns[0])) is Some {
        Some(patterns[0])
    } else {
        first_refused(patterns.skip(1))
    }
}

/// A file matches one of the globs: by its path below the root, by its name,
/// or by its whole path.
pub open spec fn selected(globs: Seq<Seq<char>>, root: Seq<char>, path: Seq<char>) -> bool {
    ||| one_matches(globs, shown_path(root, path))
    ||| base_name(path) matches Some(name) && one_matches(globs, name)
    ||| one_matches(globs, path)
}

/// A file passes: it matches no glob that excludes, and if there are others it
/// matches one of those.
pub open spec fn passes(patterns: Seq<Seq<char>>, root: Seq<char>, path: Seq<char>) -> bool {
    let includes = globs_of(patterns, false);
    &&& !selected(globs_of(patterns, true), root, path)
    &&& includes.len() == 0 || selected(includes, root, path)
}

/// The globs that include and those that exclude.
pub struct GlobFilter {
    includes: globset::GlobSet,
    excludes: globset::GlobSet,
    has_includes: bool,
    has_excludes: bool,
    patterns: Ghost<Seq<Seq<char>>>,
}

impl GlobFilter {
    /// The patterns that the filter is made from.
    pub closed spec fn spec_patterns(self) -> Seq<Seq<char>> {
        self.patterns@
    }

    /// The sets hold the globs of the patterns.
    #[verifier::type_invariant]
    spec fn consistent(self) -> bool {
        &&& held(self.includes) == globs_of(self.patterns@, false)
        &&& held(self.excludes) == globs_of(self.patterns@, true)
        &&& self.has_includes == (globs_of(self.patterns@, false).len() > 0)
        &&& self.has_excludes == (globs_of(self.patterns@, true).len() > 0)
    }

    /// Whether a file passes.
    pub fn matches(&self, root: &str, path: &str) -> (res: bool)
        ensures
            res == passes(self.spec_patterns(), root@, path@),
    {
        proof {
            use_type_invariant(self);
        }
        let excluded = self.has_excludes && is_selected(&self.excludes, root, path);
        let included = self.has_includes && !excluded && is_selected(&self.includes, root, path);
        lets_through(excluded, self.has_includes, included)
    }
}

/// Whether a file passes that matches a glob that excludes or not, where there
/// are globs that include or not, and that matches one of those or not.
pub fn lets_through(excluded: bool, has_includes: bool, included: bool) -> (res: bool)
    ensures
        res == (!excluded && (!has_includes || included)),
{
    !excluded && (!has_includes || included)
}

/// Whether a file matches one of the globs of a set.
fn is_selected(set: &globset::GlobSet, root: &str, path: &str) -> (res: bool)
    ensures
        res == selected(held(*set), root@, path@),
{
    let rel = display_path(root, path);
    if glob_set_is_match(set, rel.as_str()) {
        return true;
    }
    match file_name(path) {
        Some(name) => {
            if glob_set_is_match(set, name.as_str()) {
                return true;
            }
        },
        None => {},
    }
    glob_set_is_match(set, path)
}

/// The filter of the patterns; none where there are no patterns.
pub fn build_glob_filter(patterns: &Vec<String>) -> (res: Result<Option<GlobFilter>, GrepError>)
    ensures
        match res {
            Ok(None) => patterns@.len() == 0,
            Ok(Some(filter)) => {
                &&& patterns@.len() > 0
                &&& first_refused(texts(patterns@)) is None
                &&& glob_set_refusal(globs_of(texts(patterns@), false)) is None
                &&& glob_set_refusal(globs_of(texts(patterns@), true)) is None
                &&& filter.spec_patterns() == texts(patterns@)
            },
            Err(GrepError::InvalidGlob { pattern, detail }) => {
                &&& patterns@.len() > 0
                &&& first_refused(texts(patterns@)) == Some(pattern@)
                &&& glob_refusal(glob_part(pattern@)) == Some(detail@)
            },
            Err(GrepError::GlobSet { detail }) => {
                &&& patterns@.len() > 0
                &&& first_refused(texts(patterns@)) is None
                &&& match glob_set_refusal(globs_of(texts(patterns@), false)) {
                    Some(why) => detail@ == why,
                    None => glob_set_refusal(globs_of(texts(patterns@), true)) == Some(detail@),
                }
            },
            Err(_) => false,
        },
{
    if patterns.len() == 0 {
        return Ok(None);
    }
    let ghost all = texts(patterns@);
    let mut inc = globset::GlobSetBuilder::new();
    let mut exc = globset::GlobSetBuilder::new();
    let mut has_includes = false;
    let mut has_excludes = false;
    let mut i: usize = 0;
    assert(all.take(0) =~= seq![]);
    assert(all.skip(0) =~= all);
    while i < patterns.len()
        invariant
            i <= patterns@.len(),
            patterns@.len() > 0,
            all == texts(patterns@),
            first_refused(all) == first_refused(all.skip(i as int)),
            gathered(inc) == globs_of(all.take(i as int), false),
            gathered(exc) == globs_of(all.take(i as int), true),
            has_includes == (globs_of(all.take(i as int), false).len() > 0),
            has_excludes == (globs_of(all.take(i as int), true).len() > 0),
        decreases patterns@.len() - i,
    {
        let ghost p = all[i as int];
        let chars = chars_of(patterns[i].as_str());
        let neg = chars.len() > 0 && chars[0] == '!';
        let pat = if neg {
            text_between(chars.as_slice(), 1, chars.len())
        } else {
            patterns[i].clone()
        };
        assert(pat@ == glob_part(p)) by {
            if neg {
                assert(chars@.subrange(1, chars@.len() as int) =~= p.skip(1));
            }
        }
        assert(all.skip(i as int)[0] == p);
        match glob_build(pat.as_str()) {
            Ok(glob) => {
                assert(all.skip(i as int).skip(1) =~= all.skip(i + 1));
                assert(all.take(i + 1).drop_last() =~= all.take(i as int));
                assert(all.take(i + 1).last() == p);
                if neg {
                    glob_add(&mut exc, glob);
                    has_excludes = true;
                } else {
                    glob_add(&mut inc, glob);
                    has_includes = true;
                }
            },
            Err(detail) => {
                return Err(GrepError::InvalidGlob { pattern: patterns[i].clone(), detail });
            },
        }
        i = i + 1;
    }
    assert(all.take(i as int) =~= all);
    assert(all.skip(i as int) =~= seq![]);
    match glob_set_build(&inc) {
        Err(detail) => Err(GrepError::GlobSet { detail }),
        Ok(includes) => match glob_set_build(&exc) {
            Err(detail) => Err(GrepError::GlobSet { detail }),
            Ok(excludes) => Ok(
                Some(
                    GlobFilter {
                        includes,
                        excludes,
                        has_includes,
                        has_excludes,
                        patterns: Ghost(all),
                    },
                ),
            ),
        },
    }
}

/// The glob matches a file: its path below the root, its own name, or its path as it
/// is.
pub open spec fn touches(glob: Seq<char>, root: Seq<char>, path: Seq<char>) -> bool {
    ||| glob_matches(glob, shown_path(root, path))
    ||| base_name(path) matches Some(name) && glob_matches(glob, name)
    ||| glob_matches(glob, path)
}

proof fn lemma_selected(patterns: Seq<Seq<char>>, excluding: bool, root: Seq<char>, path: Seq<char>)
    ensures
        selected(globs_of(patterns, excluding), root, path) <==> exists|i: int|
            0 <= i < patterns.len() && negated(#[trigger] patterns[i]) == excluding && touches(
                glob_part(patterns[i]),
                root,
                path,
            ),
        globs_of(patterns, excluding).len() == 0 <==> forall|i: int|
            0 <= i < patterns.len() ==> negated(#[trigger] patterns[i]) != excluding,
    decreases patterns.len(),
{
    let all = globs_of(patterns, excluding);
    if patterns.len() > 0 {
        let front = patterns.drop_last();
        let rest = globs_of(front, excluding);
        lemma_selected(front, excluding, root, path);
        let last = patterns.last();
        if selected(rest, root, path) {
            let i = choose|i: int|
                0 <= i < front.len() && negated(#[trigger] front[i]) == excluding && touches(
                    glob_part(front[i]),
                    root,
                    path,
                );
            assert(patterns[i] == front[i]);
            lemma_more_select(rest, all, root, path);
        }
        if selected(all, root, path) && !selected(rest, root, path) {
            assert(negated(last) == excluding);
            lemma_last_selects(rest, glob_part(last), root, path);
            assert(negated(patterns[patterns.len() - 1]) == excluding);
        }
        if exists|i: int|
            0 <= i < patterns.len() && negated(#[trigger] patterns[i]) == excluding && touches(
                glob_part(patterns[i]),
                root,
                path,
            ) {
            let i = choose|i: int|
                0 <= i < patterns.len() && negated(#[trigger] patterns[i]) == excluding && touches(
                    glob_part(patterns[i]),
                    root,
                    path,
                );
            if i < front.len() {
                assert(front[i] == patterns[i]);
                assert(selected(rest, root, path));
            } else {
                assert(all[rest.len() as int] == glob_part(last));
            }
        }
        if all.len() == 0 {
            assert forall|i: int| 0 <= i < patterns.len() implies negated(#[trigger] patterns[i])
                != excluding by {
                if i < front.len() {
                    assert(front[i] == patterns[i]);
                }
            }
        }
        if forall|i: int| 0 <= i < patterns.len() ==> negated(#[trigger] patterns[i]) != excluding {
            assert(negated(patterns[patterns.len() - 1]) != excluding);
            assert forall|i: int| 0 <= i < front.len() implies negated(#[trigger] front[i])
                != excluding by {
                assert(front[i] == patterns[i]);
            }
        }
    }
}

proof fn lemma_more_select(a: Seq<Seq<char>>, b: Seq<Seq<char>>, root: Seq<char>, path: Seq<char>)
    requires
        selected(a, root, path),
        a.len() <= b.len(),
        forall|i: int| 0 <= i < a.len() ==> #[trigger] a[i] == b[i],
    ensures
        selected(b, root, path),
{
    if one_matches(a, path) {
        let i = choose|i: int| 0 <= i < a.len() && glob_matches(#[trigger] a[i], path);
        assert(glob_matches(b[i], path));
    }
    if one_matches(a, shown_path(root, path)) {
        let i = choose|i: int|
            0 <= i < a.len() && glob_matches(#[trigger] a[i], shown_path(root, path));
        assert(glob_matches(b[i], shown_path(root, path)));
    }
    if let Some(name) = base_name(path) {
        if one_matches(a, name) {
            let i = choose|i: int| 0 <= i < a.len() && glob_matches(#[trigger] a[i], name);
            assert(glob_matches(b[i], name));
        }
    }
}

proof fn lemma_last_selects(a: Seq<Seq<char>>, last: Seq<char>, root: Seq<char>, path: Seq<char>)
    requires
        selected(a.push(last), root, path),
        !selected(a, root, path),
    ensures
        touches(last, root, path),
{
    let b = a.push(last);
    if one_matches(b, path) {
        let i = choose|i: int| 0 <= i < b.len() && glob_matches(#[trigger] b[i], path);
        if i < a.len() {
            assert(glob_matches(a[i], path));
        }
    } else if one_matches(b, shown_path(root, path)) {
        let i = choose|i: int|
            0 <= i < b.len() && glob_matches(#[trigger] b[i], shown_path(root, path));
        if i < a.len() {
            assert(glob_matches(a[i], shown_path(root, path)));
        }
    } else if let Some(name) = base_name(path) {
        let i = choose|i: int| 0 <= i < b.len() && glob_matches(#[trigger] b[i], name);
        if i < a.len() {
            assert(glob_matches(a[i], name));
        }
    }
}

/// A file passes if no pattern with an exclamation mark in front matches it without
/// that mark, and one of the other patterns does, where there are any.
pub proof fn law_globs_let_through(patterns: Seq<Seq<char>>, root: Seq<char>, path: Seq<char>)
    ensures
        passes(patterns, root, path) <==> {
            &&& forall|i: int|
                0 <= i < patterns.len() && (#[trigger] patterns[i]).len() > 0 && patterns[i][0]
                    == '!' ==> !touches(patterns[i].skip(1), root, path)
            &&& {
                ||| forall|i: int|
                    0 <= i < patterns.len() ==> (#[trigger] patterns[i]).len() > 0 && patterns[i][0]
                        == '!'
                ||| exists|i: int|
                    0 <= i < patterns.len() && !((#[trigger] patterns[i]).len() > 0
                        && patterns[i][0] == '!') && touches(patterns[i], root, path)
            }
        },
{
    lemma_selected(patterns, false, root, path);
    lemma_selected(patterns, true, root, path);
    if passes(patterns, root, path) {
        assert forall|i: int|
            0 <= i < patterns.len() && (#[trigger] patterns[i]).len() > 0 && patterns[i][0]
                == '!' implies !touches(patterns[i].skip(1), root, path) by {
            assert(negated(patterns[i]));
        }
        if globs_of(patterns, false).len() == 0 {
            assert forall|i: int| 0 <= i < patterns.len() implies (#[trigger] patterns[i]).len() > 0
                && patterns[i][0] == '!' by {
                assert(negated(patterns[i]));
            }
        } else {
            let i = choose|i: int|
                0 <= i < patterns.len() && negated(#[trigger] patterns[i]) == false && touches(
                    glob_part(patterns[i]),
                    root,
                    path,
                );
            assert(touches(patterns[i], root, path));
        }
    } else if selected(globs_of(patterns, true), root, path) {
        let i = choose|i: int|
            0 <= i < patterns.len() && negated(#[trigger] patterns[i]) == true && touches(
                glob_part(patterns[i]),
                root,
                path,
            );
        assert(patterns[i].len() > 0);
    } else {
        let i = choose|i: int| 0 <= i < patterns.len() && negated(#[trigger] patterns[i]) == false;
        assert(!(patterns[i].len() > 0 && patterns[i][0] == '!'));
        assert forall|j: int|
            0 <= j < patterns.len() && !((#[trigger] patterns[j]).len() > 0 && patterns[j][0]
                == '!') implies !touches(patterns[j], root, path) by {
            assert(!negated(patterns[j]));
        }
    }
}

/// The pattern that is refused is the first one that is no glob, an exclamation mark
/// in front of it left aside.
pub proof fn law_first_bad_glob_is_refused(patterns: Seq<Seq<char>>)
    ensures
        match first_refused(patterns) {
            Some(p) => exists|i: int|
                0 <= i < patterns.len() && #[trigger] patterns[i] == p && glob_refusal(
                    if p.len() > 0 && p[0] == '!' {
                        p.skip(1)
                    } else {
                        p
                    },
                ) is Some && first_refused(patterns.take(i)) is None,
            None => forall|i: int|
                0 <= i < patterns.len() ==> glob_refusal(
                    if (#[trigger] patterns[i]).len() > 0 && patterns[i][0] == '!' {
                        patterns[i].skip(1)
                    } else {
                        patterns[i]
                    },
                ) is None,
        },
    decreases patterns.len(),
{
    if patterns.len() > 0 {
        if glob_refusal(glob_part(patterns[0])) is Some {
            assert(patterns.take(0) =~= seq![]);
            assert(patterns[0] == first_refused(patterns)->0);
        } else {
            let rest = patterns.skip(1);
            law_first_bad_glob_is_refused(rest);
            match first_refused(rest) {
                Some(p) => {
                    let i = choose|i: int|
                        0 <= i < rest.len() && #[trigger] rest[i] == p && glob_refusal(
                            if p.len() > 0 && p[0] == '!' {
                                p.skip(1)
                            } else {
                                p
                            },
                        ) is Some && first_refused(rest.take(i)) is None;
                    assert(patterns[i + 1] == p);
                    assert(patterns.take(i + 1).skip(1) =~= rest.take(i));
                    assert(patterns.take(i + 1)[0] == patterns[0]);
                },
                None => {
                    assert forall|i: int| 0 <= i < patterns.len() implies glob_refusal(
                        if (#[trigger] patterns[i]).len() > 0 && patterns[i][0] == '!' {
                            patterns[i].skip(1)
                        } else {
                            patterns[i]
                        },
                    ) is None by {
                        if i > 0 {
                            assert(rest[i - 1] == patterns[i]);
                        }
                    }
                },
            }
        }
    }
}

} // verus!
