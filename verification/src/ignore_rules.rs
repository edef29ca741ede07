//! Project ignore files (`.ignore`, `.gitignore`, git's `info/exclude` and the
//! global excludes file) and the precedence between them.

use vstd::prelude::*;

verus! {

/// What one ignore file says of a path.
#[derive(Debug, Clone, Copy, PartialEq, Eq, Structural)]
pub enum IgnoreMatch {
    NoMatch,
    Ignore,
    Whitelist,
}

/// The contents of one ignore file: the directory its patterns are relative
/// to, the file it was read from, and its lines.
#[derive(Debug, Clone)]
pub struct IgnoreLayer {
    pub root: String,
    pub source: String,
    pub lines: Vec<String>,
}

/// The ignore files that apply to a path, each group ordered from the
/// outermost directory to the innermost.
#[derive(Debug, Clone)]
pub struct IgnoreLayers {
    pub dot_ignore: Vec<IgnoreLayer>,
    pub git_ignore: Vec<IgnoreLayer>,
    pub git_exclude: Vec<IgnoreLayer>,
    pub global: Option<IgnoreLayer>,
}

/// An ignore file whose lines do not form a matcher.
#[derive(Debug, Clone, PartialEq, Eq)]
pub struct IgnoreFileError {
    pub source: String,
}

/// What `ignore::gitignore` decides for `path`, given the lines of one ignore
/// file rooted at `root`; none when those lines do not build a matcher.
pub uninterp spec fn gitignore_decision(
    root: Seq<char>,
    source: Seq<char>,
    lines: Seq<Seq<char>>,
    path: Seq<char>,
    is_dir: bool,
) -> Option<IgnoreMatch>;

pub open spec fn lines_view(lines: Seq<String>) -> Seq<Seq<char>> {
    lines.map_values(|line: String| line@)
}

/// `GitignoreBuilder::new(root)`, `add_line(Some(source), line)` for each line,
/// `build()` and `Gitignore::matched(path, is_dir)`: the match of the highest
/// precedence glob, none when a line or the build is refused. The contract
/// only names the result; the matching rules are the crate's.
#[verifier::external_body]
fn gitignore_matched(root: &str, source: &str, lines: &[String], path: &str, is_dir: bool) -> (r: Option<IgnoreMatch>)
    ensures
        r == gitignore_decision(root@, source@, lines_view(lines@), path@, is_dir),
{
    let mut builder = ignore::gitignore::GitignoreBuilder::new(root);
    for line in lines {
        builder.add_line(Some(std::path::PathBuf::from(source)), line).ok()?;
    }
    match builder.build().ok()?.matched(path, is_dir) {
        ignore::Match::None => Some(IgnoreMatch::NoMatch),
        ignore::Match::Ignore(_) => Some(IgnoreMatch::Ignore),
        ignore::Match::Whitelist(_) => Some(IgnoreMatch::Whitelist),
    }
}

/// What one ignore file decides for `path`.
pub open spec fn layer_match(layer: IgnoreLayer, path: Seq<char>, is_dir: bool) -> Option<IgnoreMatch> {
    gitignore_decision(layer.root@, layer.source@, lines_view(layer.lines@), path, is_dir)
}

/// Every file of the group builds a matcher.
pub open spec fn group_builds(layers: Seq<IgnoreLayer>, path: Seq<char>, is_dir: bool) -> bool {
    forall|i: int| 0 <= i < layers.len() ==> (#[trigger] layer_match(layers[i], path, is_dir)) is Some
}

/// The decision of the innermost file of the group that has one.
pub open spec fn group_decision(layers: Seq<IgnoreLayer>, path: Seq<char>, is_dir: bool) -> IgnoreMatch
    decreases layers.len(),
{
    if layers.len() == 0 {
        IgnoreMatch::NoMatch
    } else {
        match layer_match(layers.last(), path, is_dir) {
            Some(m) if m != IgnoreMatch::NoMatch => m,
            _ => group_decision(layers.drop_last(), path, is_dir),
        }
    }
}

/// Every ignore file that applies builds a matcher.
pub open spec fn layers_build(layers: IgnoreLayers, path: Seq<char>, is_dir: bool) -> bool {
    &&& group_builds(layers.dot_ignore@, path, is_dir)
    &&& group_builds(layers.git_ignore@, path, is_dir)
    &&& group_builds(layers.git_exclude@, path, is_dir)
    &&& layers.global matches Some(g) ==> layer_match(g, path, is_dir) is Some
}

/// `.ignore` files take precedence over `.gitignore` files, those over git's
/// exclude files, and those over the global excludes file; within a group the
/// innermost file that decides wins.
pub open spec fn layered_decision(layers: IgnoreLayers, path: Seq<char>, is_dir: bool) -> IgnoreMatch {
    let dot = group_decision(layers.dot_ignore@, path, is_dir);
    let git = group_decision(layers.git_ignore@, path, is_dir);
    let exclude = group_decision(layers.git_exclude@, path, is_dir);
    if dot != IgnoreMatch::NoMatch {
        dot
    } else if git != IgnoreMatch::NoMatch {
        git
    } else if exclude != IgnoreMatch::NoMatch {
        exclude
    } else {
        match layers.global {
            Some(g) => match layer_match(g, path, is_dir) {
                Some(m) => m,
                None => IgnoreMatch::NoMatch,
            },
            None => IgnoreMatch::NoMatch,
        }
    }
}

/// The decision of one group; an error names the innermost of its files that
/// builds no matcher.
fn group_decide(layers: &Vec<IgnoreLayer>, path: &str, is_dir: bool) -> (r: Result<IgnoreMatch, IgnoreFileError>)
    ensures
        r is Ok <==> group_builds(layers@, path@, is_dir),
        r matches Ok(m) ==> m == group_decision(layers@, path@, is_dir),
{
    let mut i = layers.len();
    let mut found = IgnoreMatch::NoMatch;
    proof {
        assert(layers@.take(layers@.len() as int) =~= layers@);
    }
    while i > 0
        invariant
            i <= layers@.len(),
            group_decision(layers@, path@, is_dir) == if found != IgnoreMatch::NoMatch {
                found
            } else {
                group_decision(layers@.take(i as int), path@, is_dir)
            },
            forall|k: int| i <= k < layers@.len() ==> (#[trigger] layer_match(layers@[k], path@, is_dir)) is Some,
        decreases i,
    {
        let layer = &layers[i - 1];
        let m = gitignore_matched(layer.root.as_str(), layer.source.as_str(), layer.lines.as_slice(), path, is_dir);
        proof {
            assert(layers@.take(i as int).drop_last() =~= layers@.take(i - 1));
            assert(layers@.take(i as int).last() == layers@[i - 1]);
        }
        match m {
            None => {
                assert(!group_builds(layers@, path@, is_dir)) by {
                    assert(layer_match(layers@[i - 1], path@, is_dir) is None);
                }
                return Err(IgnoreFileError { source: layer.source.clone() });
            },
            Some(d) => {
                if found == IgnoreMatch::NoMatch && d != IgnoreMatch::NoMatch {
                    found = d;
                }
            },
        }
        i = i - 1;
    }
    assert(group_builds(layers@, path@, is_dir));
    Ok(found)
}

/// The decision of the ignore files for `path`: the first group (`.ignore`,
/// then `.gitignore`, then git's exclude files, then the global file) whose
/// innermost deciding file says ignore or whitelist. An error names a file
/// whose lines build no matcher.
pub fn ignore_decision(layers: &IgnoreLayers, path: &str, is_dir: bool) -> (r: Result<IgnoreMatch, IgnoreFileError>)
    ensures
        r is Ok <==> layers_build(*layers, path@, is_dir),
        r matches Ok(m) ==> m == layered_decision(*layers, path@, is_dir),
{
    let dot = group_decide(&layers.dot_ignore, path, is_dir)?;
    let git = group_decide(&layers.git_ignore, path, is_dir)?;
    let exclude = group_decide(&layers.git_exclude, path, is_dir)?;
    let global = match &layers.global {
        Some(g) => match gitignore_matched(g.root.as_str(), g.source.as_str(), g.lines.as_slice(), path, is_dir) {
            Some(m) => m,
            None => {
                return Err(IgnoreFileError { source: g.source.clone() });
            },
        },
        None => IgnoreMatch::NoMatch,
    };
    if dot != IgnoreMatch::NoMatch {
        Ok(dot)
    } else if git != IgnoreMatch::NoMatch {
        Ok(git)
    } else if exclude != IgnoreMatch::NoMatch {
        Ok(exclude)
    } else {
        Ok(global)
    }
}

} // verus!
