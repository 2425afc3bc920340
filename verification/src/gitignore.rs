use vstd::prelude::*;

use crate::relpath::{path_is_prefix, RelPath};

verus! {

#[verifier::external_type_specification]
#[verifier::external_body]
pub struct ExGitignore(ignore::gitignore::Gitignore);

/// What a parsed ignore file says about a path relative to its own
/// directory: `Some(true)` to ignore it, `Some(false)` to whitelist it,
/// `None` for no opinion. The verdict depends on the ignore lines and the
/// queried path alone.
pub uninterp spec fn gitignore_verdict(
    lines: Seq<Seq<char>>,
    path: Seq<Seq<u8>>,
    is_dir: bool,
) -> Option<bool>;

/// One parsed ignore file: the lines it was built from, and the matcher
/// the outside crate compiled from exactly those lines.
pub struct GitignoreFile {
    lines: Vec<String>,
    matcher: ignore::gitignore::Gitignore,
}

pub open spec fn lines_view(lines: Seq<String>) -> Seq<Seq<char>> {
    lines.map(|_i: int, s: String| s@)
}

impl GitignoreFile {
    /// The lines this ignore file was compiled from.
    pub closed spec fn lines_spec(&self) -> Seq<Seq<char>> {
        lines_view(self.lines@)
    }

    /// Relies on ignore::gitignore::GitignoreBuilder (new, add_line,
    /// build): the matcher is compiled from exactly these lines, rooted
    /// at its own directory; a line that is no valid pattern fails the
    /// build.
    #[verifier::external_body]
    pub fn parse(lines: Vec<String>) -> (r: Option<GitignoreFile>)
        ensures
            r matches Some(g) ==> g.lines_spec() == lines_view(lines@),
    {
        let mut b = ignore::gitignore::GitignoreBuilder::new("");
        for line in lines.iter() {
            if b.add_line(None, line).is_err() {
                return None;
            }
        }
        match b.build() {
            Ok(matcher) => Some(GitignoreFile { lines, matcher }),
            Err(_) => None,
        }
    }

    /// Relies on ignore::gitignore::Gitignore::matched: the verdict is a
    /// function of the compiled lines and the queried path alone.
    #[verifier::external_body]
    pub fn matched(&self, path: &RelPath, is_dir: bool) -> (r: Option<bool>)
        ensures
            r == gitignore_verdict(self.lines_spec(), path@, is_dir),
    {
        let mut s = std::string::String::new();
        for (i, comp) in path.components.iter().enumerate() {
            if i > 0 {
                s.push('/');
            }
            s.push_str(&String::from_utf8_lossy(comp));
        }
        match self.matcher.matched(&s, is_dir) {
            ignore::Match::None => None,
            ignore::Match::Ignore(_) => Some(true),
            ignore::Match::Whitelist(_) => Some(false),
        }
    }
}

/// What a stack of ignore files says about a path: the deepest file with
/// an opinion wins; with no opinion anywhere the path is not ignored.
pub open spec fn stack_verdict(
    entries: Seq<(Seq<Seq<u8>>, Seq<Seq<char>>)>,
    path: Seq<Seq<u8>>,
    is_dir: bool,
) -> bool
    decreases entries.len(),
{
    if entries.len() == 0 {
        false
    } else {
        let top = entries.last();
        if path_is_prefix(top.0, path) {
            match gitignore_verdict(top.1, path.skip(top.0.len() as int), is_dir) {
                Some(v) => v,
                None => stack_verdict(entries.drop_last(), path, is_dir),
            }
        } else {
            stack_verdict(entries.drop_last(), path, is_dir)
        }
    }
}

/// The ignore files in effect on the way down to some directory, deepest
/// last. Each entry carries the worktree-relative directory that holds
/// the ignore file.
pub struct IgnoreStack {
    pub entries: Vec<(RelPath, GitignoreFile)>,
}

impl IgnoreStack {
    pub closed spec fn view_entries(&self) -> Seq<(Seq<Seq<u8>>, Seq<Seq<char>>)> {
        self.entries@.map(
            |_i: int, e: (RelPath, GitignoreFile)| (e.0@, e.1.lines_spec()),
        )
    }

    /// The empty stack: nothing is ignored.
    pub fn none() -> (r: IgnoreStack)
        ensures
            r.view_entries().len() == 0,
    {
        IgnoreStack { entries: Vec::new() }
    }

    /// Pushes the ignore file of a deeper directory.
    pub fn append(&mut self, dir: RelPath, file: GitignoreFile)
        ensures
            final (self).view_entries() =~~= old(self).view_entries().push(
                (dir@, file.lines_spec()),
            ),
    {
        self.entries.push((dir, file));
    }

    /// Whether the stack ignores the given worktree-relative path: the
    /// deepest applicable ignore file with an opinion decides.
    pub fn is_path_ignored(&self, path: &RelPath, is_dir: bool) -> (r: bool)
        ensures
            r == stack_verdict(self.view_entries(), path@, is_dir),
    {
        let ghost ev = self.view_entries();
        proof {
            assert(ev.subrange(0, ev.len() as int) =~= ev);
        }
        let mut i: usize = self.entries.len();
        while i > 0
            invariant
                i <= self.entries@.len(),
                ev == self.view_entries(),
                ev.len() == self.entries@.len(),
                stack_verdict(ev, path@, is_dir) == stack_verdict(
                    ev.subrange(0, i as int),
                    path@,
                    is_dir,
                ),
            decreases i,
        {
            i = i - 1;
            let ghost pre = ev.subrange(0, i + 1);
            proof {
                assert(pre.last() == ev[i as int]);
                assert(pre.drop_last() =~= ev.subrange(0, i as int));
            }
            let dir = &self.entries[i].0;
            match path.strip_prefix(dir) {
                Some(rel) => {
                    proof {
                        assert(path_is_prefix(ev[i as int].0, path@));
                        assert(rel@ =~~= path@.skip(ev[i as int].0.len() as int));
                    }
                    match self.entries[i].1.matched(&rel, is_dir) {
                        Some(v) => {
                            proof {
                                assert(stack_verdict(pre, path@, is_dir) == v);
                            }
                            return v;
                        },
                        None => {
                            proof {
                                assert(stack_verdict(pre, path@, is_dir) == stack_verdict(
                                    ev.subrange(0, i as int),
                                    path@,
                                    is_dir,
                                ));
                            }
                        },
                    }
                },
                None => {
                    proof {
                        assert(!path_is_prefix(ev[i as int].0, path@));
                        assert(stack_verdict(pre, path@, is_dir) == stack_verdict(
                            ev.subrange(0, i as int),
                            path@,
                            is_dir,
                        ));
                    }
                },
            }
        }
        proof {
            assert(ev.subrange(0, 0) =~= Seq::<(Seq<Seq<u8>>, Seq<Seq<char>>)>::empty());
        }
        false
    }
}

} // verus!
