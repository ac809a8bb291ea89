//! Which source files a discovery keeps: the configuration of extensions and excluded
//! directories, and the tests on a path.

use vstd::prelude::*;
use crate::paths::{file_name_of, file_name_chars, is_sep, is_separator};
use crate::text::{chars_of, str_to_string, sub_vec, views, has_prefix, starts_with_chars, string_from_chars};

verus! {

broadcast use vstd::string::group_string_axioms;

/// Configuration for file discovery
#[derive(Debug, Clone)]
pub struct DiscoveryConfig {
    /// File extensions to include (e.g., "zig", "rs", "s")
    pub extensions: Vec<String>,
    /// Directory patterns to exclude (e.g., "test", "build", "zig-cache")
    pub exclude_patterns: Vec<String>,
    /// Whether to follow symbolic links
    pub follow_symlinks: bool,
}

/// The extensions kept by default.
pub open spec fn default_extensions() -> Seq<Seq<char>> {
    seq!["zig"@, "rs"@]
}

/// The directory names excluded by default.
pub open spec fn default_excludes() -> Seq<Seq<char>> {
    seq!["test"@, "tests"@, "build"@, "zig-cache"@, "target"@, ".git"@]
}

fn default_exclude_list() -> (r: Vec<String>)
    ensures
        views(r@) == default_excludes(),
{
    let mut r: Vec<String> = Vec::new();
    r.push(str_to_string("test"));
    r.push(str_to_string("tests"));
    r.push(str_to_string("build"));
    r.push(str_to_string("zig-cache"));
    r.push(str_to_string("target"));
    r.push(str_to_string(".git"));
    assert(views(r@) =~= default_excludes());
    r
}

impl Default for DiscoveryConfig {
    /// Zig and Rust sources, excluding test, build, cache, target and git directories,
    /// not following symbolic links.
    fn default() -> (c: Self)
        ensures
            views(c.extensions@) == default_extensions(),
            views(c.exclude_patterns@) == default_excludes(),
            !c.follow_symlinks,
    {
        let mut extensions: Vec<String> = Vec::new();
        extensions.push(str_to_string("zig"));
        extensions.push(str_to_string("rs"));
        assert(views(extensions@) =~= default_extensions());
        DiscoveryConfig { extensions, exclude_patterns: default_exclude_list(), follow_symlinks: false }
    }
}

/// The extension of a path: what follows the last `.` of its file name, unless the file
/// name has no `.` or only a leading one.
pub open spec fn extension_of(p: Seq<char>) -> Option<Seq<char>> {
    match file_name_of(p) {
        Some(name) => match last_dot(name, name.len() as int) {
            Some(k) => if k > 0 {
                Some(name.skip(k + 1))
            } else {
                None
            },
            None => None,
        },
        None => None,
    }
}

/// The index of the last `.` in `s[0..i]`.
pub open spec fn last_dot(s: Seq<char>, i: int) -> Option<int>
    decreases i,
{
    if i <= 0 {
        None
    } else if s[i - 1] == '.' {
        Some(i - 1)
    } else {
        last_dot(s, i - 1)
    }
}

/// The first index at or after `i` holding a `/`, or the length of `p`.
pub open spec fn next_slash(p: Seq<char>, i: int) -> int
    decreases p.len() - i,
{
    if i >= p.len() {
        p.len() as int
    } else if p[i] == '/' {
        i
    } else {
        next_slash(p, i + 1)
    }
}

/// The components of `p` from index `start` on: the texts between `/`, leaving out empty
/// ones and `.`, which is kept only as the very first component (`first`).
pub open spec fn components_from(p: Seq<char>, start: int, first: bool) -> Seq<Seq<char>>
    decreases p.len() - start,
{
    if start < 0 || start > p.len() {
        seq![]
    } else {
        let k = next_slash(p, start);
        let end = if start <= k <= p.len() { k } else { p.len() as int };
        let seg = p.subrange(start, end);
        let here = if seg.len() == 0 || (seg == seq!['.'] && !first) {
            seq![]
        } else {
            seq![seg]
        };
        if start <= k < p.len() {
            here + components_from(p, k + 1, false)
        } else {
            here
        }
    }
}

/// The components of a path, as `Path::components` gives them on Unix: `/` first for an
/// absolute path, then its names (and `..`), with `.` only at the start of a relative path.
pub open spec fn path_components(p: Seq<char>) -> Seq<Seq<char>> {
    if p.len() > 0 && p[0] == '/' {
        seq![seq!['/']] + components_from(p, 1, false)
    } else {
        components_from(p, 0, true)
    }
}

proof fn lemma_next_slash(p: Seq<char>, i: int, k: int)
    requires
        0 <= i <= k <= p.len(),
        forall|j: int| i <= j < k ==> p[j] != '/',
        k == p.len() || p[k] == '/',
    ensures
        next_slash(p, i) == k,
    decreases k - i,
{
    if i < k {
        lemma_next_slash(p, i + 1, k);
    }
}

/// The components of a path; see `path_components`.
pub fn components(path: &Vec<char>) -> (r: Vec<Vec<char>>)
    ensures
        r.deep_view() == path_components(path@),
{
    let mut r: Vec<Vec<char>> = Vec::new();
    let mut start: usize = 0;
    let mut first = true;
    if path.len() > 0 && path[0] == '/' {
        let mut root: Vec<char> = Vec::new();
        root.push('/');
        assert(root.deep_view() =~= seq!['/']);
        r.push(root);
        start = 1;
        first = false;
        assert(r.deep_view() =~= seq![seq!['/']]);
    }
    let ghost total = path_components(path@);
    let mut done = false;
    while !done
        invariant
            start <= path@.len(),
            total == path_components(path@),
            !done ==> r.deep_view() + components_from(path@, start as int, first) == total,
            done ==> r.deep_view() == total,
        decreases path@.len() - start, if done { 0int } else { 1int },
    {
        let mut k: usize = start;
        while k < path.len() && path[k] != '/'
            invariant
                start <= k <= path@.len(),
                forall|j: int| start <= j < k ==> path@[j] != '/',
            decreases path.len() - k,
        {
            k += 1;
        }
        proof {
            lemma_next_slash(path@, start as int, k as int);
        }
        let seg = sub_vec(path, start, k);
        let ghost old_r = r.deep_view();
        let is_dot = seg.len() == 1 && seg[0] == '.';
        assert(is_dot == (seg@ == seq!['.'])) by {
            if seg@ == seq!['.'] {
                assert(seg@[0] == '.');
            }
            if is_dot {
                assert(seg@ =~= seq!['.']);
            }
        }
        let ghost here = if seg@.len() == 0 || (seg@ == seq!['.'] && !first) { seq![] } else { seq![seg@] };
        if seg.len() == 0 || (is_dot && !first) {
            assert(r.deep_view() =~= old_r + here);
        } else {
            assert(seg.deep_view() =~= seg@);
            r.push(seg);
            assert(r.deep_view() =~= old_r + here);
        }
        if k < path.len() {
            assert(components_from(path@, start as int, first) == here + components_from(path@, k + 1, false));
            assert(r.deep_view() + components_from(path@, k + 1, false) =~= old_r + (here + components_from(path@, k + 1, false)));
            start = k + 1;
            first = false;
        } else {
            assert(components_from(path@, start as int, first) == here);
            done = true;
        }
    }
    r
}

impl DiscoveryConfig {
    /// A configuration with the given extensions and the default exclusions.
    pub fn with_extensions(extensions: Vec<String>) -> (c: Self)
        ensures
            c.extensions@ == extensions@,
            views(c.exclude_patterns@) == default_excludes(),
            !c.follow_symlinks,
    {
        DiscoveryConfig { extensions, exclude_patterns: default_exclude_list(), follow_symlinks: false }
    }

    /// Add an extension to the list.
    pub fn add_extension(self, ext: String) -> (c: Self)
        ensures
            c.extensions@ == self.extensions@.push(ext),
            c.exclude_patterns@ == self.exclude_patterns@,
            c.follow_symlinks == self.follow_symlinks,
    {
        let mut c = self;
        c.extensions.push(ext);
        c
    }

    /// Add an exclude pattern.
    pub fn add_exclude_pattern(self, pattern: String) -> (c: Self)
        ensures
            c.extensions@ == self.extensions@,
            c.exclude_patterns@ == self.exclude_patterns@.push(pattern),
            c.follow_symlinks == self.follow_symlinks,
    {
        let mut c = self;
        c.exclude_patterns.push(pattern);
        c
    }

    /// The path has an extension that is one of the configured ones.
    pub open spec fn includes(&self, path: Seq<char>) -> bool {
        extension_of(path) matches Some(e) && views(self.extensions@).contains(e)
    }

    /// Some component of the path is exactly one of the exclude patterns (so "test"
    /// excludes a directory "test" but not "test_fixtures").
    pub open spec fn excludes(&self, path: Seq<char>) -> bool {
        exists|i: int, j: int| 0 <= i < path_components(path).len() && 0 <= j < self.exclude_patterns@.len()
            && #[trigger] path_components(path)[i] == #[trigger] self.exclude_patterns@[j]@
    }

    /// Check if a path should be included based on its extension; see `includes`.
    pub fn should_include(&self, path: &str) -> (b: bool)
        ensures
            b == self.includes(path@),
    {
        let p = chars_of(path);
        let name = match file_name_chars(&p) {
            Some(n) => n,
            None => return false,
        };
        let mut i: usize = name.len();
        while i > 0 && name[i - 1] != '.'
            invariant
                i <= name@.len(),
                last_dot(name@, name@.len() as int) == last_dot(name@, i as int),
            decreases i,
        {
            i -= 1;
        }
        if i <= 1 {
            return false;
        }
        let ext = sub_vec(&name, i, name.len());
        assert(ext@ =~= name@.skip(i as int));
        assert(last_dot(name@, i as int) == Some(i - 1));
        assert(extension_of(path@) == Some(ext@));
        let mut j: usize = 0;
        while j < self.extensions.len()
            invariant
                j <= self.extensions@.len(),
                extension_of(path@) == Some(ext@),
                forall|k: int| 0 <= k < j ==> #[trigger] views(self.extensions@)[k] != ext@,
            decreases self.extensions.len() - j,
        {
            let allowed = chars_of(self.extensions[j].as_str());
            if crate::text::chars_eq(&allowed, &ext) {
                assert(views(self.extensions@)[j as int] == ext@);
                assert(views(self.extensions@).contains(ext@));
                return true;
            }
            j += 1;
        }
        false
    }

    /// `path` lies under `root`: `root` is a prefix of it that ends at a path separator
    /// (or at the end of `path`).
    pub open spec fn under(root: Seq<char>, path: Seq<char>) -> bool {
        &&& has_prefix(path, root)
        &&& (path.len() == root.len() || is_sep(path[root.len() as int]) || (root.len() > 0
            && is_sep(root.last())))
    }

    /// Whether a file met in a walk from `root` is excluded: the patterns are matched
    /// against the components of its path below the root (all of them when the path does
    /// not lie under the root), so that the root's own directories never exclude it.
    pub open spec fn excludes_under(&self, root: Seq<char>, path: Seq<char>) -> bool {
        if Self::under(root, path) {
            self.excludes(path.skip(root.len() as int))
        } else {
            self.excludes(path)
        }
    }

    /// Check if a file found in a walk from `root` should be excluded; see
    /// `excludes_under`.
    pub fn should_exclude_under(&self, root: &str, path: &str) -> (b: bool)
        ensures
            b == self.excludes_under(root@, path@),
    {
        let r = chars_of(root);
        let p = chars_of(path);
        let under = starts_with_chars(&p, &r) && (p.len() == r.len() || is_separator(p[r.len()]) || (r.len() > 0
            && is_separator(r[r.len() - 1])));
        if under {
            let rest = sub_vec(&p, r.len(), p.len());
            assert(rest@ == path@.skip(root@.len() as int));
            let text = string_from_chars(&rest);
            self.should_exclude(text.as_str())
        } else {
            self.should_exclude(path)
        }
    }

    /// Check if a path should be excluded based on the patterns; see `excludes`.
    pub fn should_exclude(&self, path: &str) -> (b: bool)
        ensures
            b == self.excludes(path@),
    {
        let p = chars_of(path);
        let comps = components(&p);
        let ghost cs = path_components(path@);
        let mut i: usize = 0;
        while i < comps.len()
            invariant
                i <= comps@.len(),
                comps.deep_view() == cs,
                cs == path_components(path@),
                forall|a: int, j: int| 0 <= a < i && 0 <= j < self.exclude_patterns@.len() ==> #[trigger] cs[a] != #[trigger] self.exclude_patterns@[j]@,
            decreases comps.len() - i,
        {
            assert(comps@[i as int]@ == cs[i as int]);
            let mut j: usize = 0;
            while j < self.exclude_patterns.len()
                invariant
                    j <= self.exclude_patterns@.len(),
                    i < cs.len(),
                    cs == path_components(path@),
                    comps.deep_view() == cs,
                    comps@[i as int]@ == cs[i as int],
                    forall|a: int, j: int| 0 <= a < i && 0 <= j < self.exclude_patterns@.len() ==> #[trigger] cs[a] != #[trigger] self.exclude_patterns@[j]@,
                    forall|k: int| 0 <= k < j ==> cs[i as int] != #[trigger] self.exclude_patterns@[k]@,
                decreases self.exclude_patterns.len() - j,
            {
                let pat = chars_of(self.exclude_patterns[j].as_str());
                if crate::text::chars_eq(&comps[i], &pat) {
                    assert(path_components(path@)[i as int] == self.exclude_patterns@[j as int]@);
                    assert(self.excludes(path@));
                    return true;
                }
                j += 1;
            }
            i += 1;
        }
        false
    }
}

/// Error information for a failed parse.
#[derive(Debug, Clone)]
pub struct ParseError {
    pub path: String,
    pub error: String,
}

impl ParseError {
    /// An error for the file at `path`, with the error's text.
    pub fn new(path: String, error: String) -> (e: Self)
        ensures
            e.path == path,
            e.error == error,
    {
        ParseError { path, error }
    }
}

} // verus!
