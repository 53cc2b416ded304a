//! Attribution: assign allocations to the first workspace source line on
//! their call stack.
//!
//! Profiler frames run from allocator internals at the top of the stack to
//! `main` at the bottom, so the first frame whose file lies in the workspace
//! is the line that asked for the memory.

use vstd::prelude::*;

use crate::collector::{allocations_view, FrameView, RawAllocation, RawAllocationView, ResolvedFrame};
use crate::text::{
    after_last, after_last_index, before_first, before_first_index, chars_of, contains_seq,
    contains_vec, free_of, range_eq_lit, replace_char, replace_char_vec, skip_leading_char, skip_trailing_char,
    starts_with, starts_with_lit, starts_with_vec, string_of, trim_end_char, trim_start_char,
};

verus! {

broadcast use vstd::seq_lib::group_seq_properties;

/// Key for attributed allocations: (relative file path, line number).
pub type AttrKey = (String, u32);

/// Paths that belong to the standard library or to dependencies.
pub open spec fn known_non_workspace(path: Seq<char>) -> bool {
    ||| starts_with(path, "alloc/"@)
    ||| starts_with(path, "core/"@)
    ||| starts_with(path, "std/"@)
    ||| starts_with(path, "src/raw_vec/"@)
    ||| starts_with(path, "src/vec/"@)
    ||| starts_with(path, "src/sync/"@)
    ||| starts_with(path, "src/io/"@)
    ||| starts_with(path, "iter/"@)
    ||| starts_with(path, "slice/"@)
}

/// A first path segment that names a standard-library source tree.
pub open spec fn std_segment(seg: Seq<char>) -> bool {
    ||| seg == "alloc"@
    ||| seg == "core"@
    ||| seg == "std"@
    ||| seg == "iter"@
    ||| seg == "slice"@
    ||| seg == "src"@
}

/// An ASCII letter.
pub open spec fn is_ascii_letter(c: char) -> bool {
    ('a' <= c && c <= 'z') || ('A' <= c && c <= 'Z')
}

/// An absolute path (read with `\` as `/`): it starts with `/`, or with a
/// drive letter and `:`.
pub open spec fn is_absolute(f: Seq<char>) -> bool {
    ||| (f.len() >= 1 && f[0] == '/')
    ||| (f.len() >= 2 && is_ascii_letter(f[0]) && f[1] == ':')
}

/// The workspace-relative form of a frame's file path, if it has one.
///
/// Both paths are read with `\` as `/`. In order:
/// 1. a path under the workspace root loses the root and leading slashes;
/// 2. any other absolute path lies outside the workspace and has none;
/// 3. a relative path that starts with the root's last directory name and
///    `/` loses that prefix, unless the rest is a known standard-library path;
/// 4. a known standard-library path has none;
/// 5. a relative path holding `/src/` or starting with `src/` is kept as
///    is, unless its first segment names a standard-library tree;
/// 6. anything else has none.
pub open spec fn workspace_relative(file: Seq<char>, workspace_root: Seq<char>) -> Option<Seq<char>> {
    let f = replace_char(file, '\\', '/');
    let w = replace_char(workspace_root, '\\', '/');
    let prefix = after_last(w, '/').push('/');
    if starts_with(f, w) {
        Some(trim_start_char(f.skip(w.len() as int), '/'))
    } else if is_absolute(f) {
        None
    } else if starts_with(f, prefix) && !known_non_workspace(f.skip(prefix.len() as int)) {
        Some(f.skip(prefix.len() as int))
    } else if known_non_workspace(f) {
        None
    } else if contains_seq(f, "/src/"@) || starts_with(f, "src/"@) {
        if std_segment(before_first(f, '/')) {
            None
        } else {
            Some(f)
        }
    } else {
        None
    }
}

/// The attribution target among `frames[i..]`: the first frame with a file
/// and a line whose file is in the workspace `w`.
pub open spec fn target_from(frames: Seq<FrameView>, w: Seq<char>, i: int) -> Option<(Seq<char>, u32)>
    decreases frames.len() - i,
{
    if i < 0 || i >= frames.len() {
        None
    } else {
        let f = frames[i];
        if f.file is Some && f.line is Some
            && workspace_relative(replace_char(f.file.unwrap(), '\\', '/'), w) is Some {
            Some((workspace_relative(replace_char(f.file.unwrap(), '\\', '/'), w).unwrap(), f.line.unwrap()))
        } else {
            target_from(frames, w, i + 1)
        }
    }
}

/// Where a call stack is attributed, for workspace root `workspace_root`
/// (trailing `/` ignored).
pub open spec fn attribution_target(frames: Seq<FrameView>, workspace_root: Seq<char>) -> Option<(Seq<char>, u32)> {
    target_from(frames, trim_end_char(workspace_root, '/'), 0)
}

/// An allocation is attributed to `key`.
pub open spec fn attributed_to(workspace_root: Seq<char>, key: (Seq<char>, u32)) -> spec_fn(RawAllocationView) -> bool {
    |a: RawAllocationView| attribution_target(a.frames, workspace_root) == Some(key)
}

/// The grouping of `allocs` by attribution target: each key that some
/// allocation is attributed to maps to those allocations, in order.
pub open spec fn attribution_spec(allocs: Seq<RawAllocationView>, workspace_root: Seq<char>)
    -> Map<(Seq<char>, u32), Seq<RawAllocationView>>
{
    Map::new(
        |k: (Seq<char>, u32)| exists|i: int| 0 <= i < allocs.len()
            && attribution_target(#[trigger] allocs[i].frames, workspace_root) == Some(k),
        |k: (Seq<char>, u32)| allocs.filter(attributed_to(workspace_root, k)),
    )
}

/// Tests whether `path` is a known standard-library or dependency path.
pub fn is_known_non_workspace(path: &Vec<char>) -> (b: bool)
    ensures
        b == known_non_workspace(path@),
{
    starts_with_lit(path, "alloc/") || starts_with_lit(path, "core/") || starts_with_lit(path, "std/")
        || starts_with_lit(path, "src/raw_vec/") || starts_with_lit(path, "src/vec/")
        || starts_with_lit(path, "src/sync/") || starts_with_lit(path, "src/io/")
        || starts_with_lit(path, "iter/") || starts_with_lit(path, "slice/")
}

/// Try to extract a workspace-relative path from a frame's file path; see
/// [`workspace_relative`] for the rules.
pub fn extract_workspace_relative_path(file_path: &str, workspace_root: &str) -> (r: Option<String>)
    ensures
        r is Some == workspace_relative(file_path@, workspace_root@) is Some,
        r matches Some(p) ==> p@ == workspace_relative(file_path@, workspace_root@).unwrap(),
{
    let fc = chars_of(file_path);
    let f = replace_char_vec(&fc, '\\', '/');
    let wc = chars_of(workspace_root);
    let w = replace_char_vec(&wc, '\\', '/');

    // Case 1: absolute path under workspace root.
    if starts_with_vec(&f, &w) {
        let k = skip_leading_char(&f, w.len(), f.len(), '/');
        assert(f@.subrange(w@.len() as int, f@.len() as int) =~= f@.skip(w@.len() as int));
        return Some(string_of(&f, k, f.len()));
    }

    // An absolute path outside the workspace root is not workspace code.
    if (f.len() >= 1 && f[0] == '/')
        || (f.len() >= 2 && (('a' <= f[0] && f[0] <= 'z') || ('A' <= f[0] && f[0] <= 'Z')) && f[1] == ':') {
        return None;
    }

    // Case 2: relative path that starts with the workspace directory name.
    let d = after_last_index(&w, '/');
    let mut prefix: Vec<char> = Vec::new();
    let mut t = d;
    while t < w.len()
        invariant
            d <= t <= w@.len(),
            prefix@ == w@.subrange(d as int, t as int),
        decreases w@.len() - t,
    {
        prefix.push(w[t]);
        t += 1;
        assert(prefix@ =~= w@.subrange(d as int, t as int));
    }
    prefix.push('/');
    assert(prefix@ =~= after_last(w@, '/').push('/')) by {
        assert(w@.subrange(d as int, w@.len() as int) =~= w@.skip(d as int));
    }
    if starts_with_vec(&f, &prefix) {
        let mut rel: Vec<char> = Vec::new();
        let mut u = prefix.len();
        while u < f.len()
            invariant
                prefix@.len() <= u <= f@.len(),
                rel@ == f@.subrange(prefix@.len() as int, u as int),
            decreases f@.len() - u,
        {
            rel.push(f[u]);
            u += 1;
            assert(rel@ =~= f@.subrange(prefix@.len() as int, u as int));
        }
        assert(rel@ =~= f@.skip(prefix@.len() as int));
        if !is_known_non_workspace(&rel) {
            return Some(string_of(&rel, 0, rel.len()));
        }
    }

    // Case 3: known standard library or dependency paths.
    if is_known_non_workspace(&f) {
        return None;
    }

    // Case 4: relative workspace path with "src/" in it.
    let src_mid = chars_of("/src/");
    if contains_vec(&f, &src_mid) || starts_with_lit(&f, "src/") {
        let e = before_first_index(&f, '/');
        if range_eq_lit(&f, 0, e, "alloc") || range_eq_lit(&f, 0, e, "core")
            || range_eq_lit(&f, 0, e, "std") || range_eq_lit(&f, 0, e, "iter")
            || range_eq_lit(&f, 0, e, "slice") || range_eq_lit(&f, 0, e, "src") {
            assert(f@.subrange(0, e as int) =~= f@.take(e as int));
            return None;
        }
        assert(f@.subrange(0, e as int) =~= f@.take(e as int));
        assert(f@.subrange(0, f@.len() as int) =~= f@);
        return Some(string_of(&f, 0, f.len()));
    }

    None
}

/// The attribution target of a call stack: the first frame with a file and
/// a line whose file is in the workspace (under the root, or a relative
/// workspace path; an absolute path outside the root never is), as
/// (relative path, line).
pub fn find_attribution_frame(frames: &[ResolvedFrame], workspace_root: &str) -> (r: Option<(String, u32)>)
    ensures
        r is Some == attribution_target(frames@.map_values(|f: ResolvedFrame| f@), workspace_root@) is Some,
        r matches Some(p) ==> (p.0@, p.1) == attribution_target(frames@.map_values(|f: ResolvedFrame| f@), workspace_root@).unwrap(),
{
    let ghost fv = frames@.map_values(|f: ResolvedFrame| f@);
    // Normalize workspace root: strip trailing slashes.
    let wc = chars_of(workspace_root);
    let we = skip_trailing_char(&wc, 0, wc.len(), '/');
    let ws_normalized = string_of(&wc, 0, we);
    proof {
        assert(wc@.subrange(0, wc@.len() as int) =~= wc@);
    }
    let ghost w = ws_normalized@;
    let mut i: usize = 0;
    while i < frames.len()
        invariant
            i <= frames@.len(),
            fv == frames@.map_values(|f: ResolvedFrame| f@),
            w == trim_end_char(workspace_root@, '/'),
            ws_normalized@ == w,
            target_from(fv, w, 0) == target_from(fv, w, i as int),
        decreases frames@.len() - i,
    {
        let frame = &frames[i];
        if let Some(file) = &frame.file {
            if let Some(line) = frame.line {
                let file_normalized = replace_char_str_owned(file);
                match extract_workspace_relative_path(file_normalized.as_str(), ws_normalized.as_str()) {
                    Some(rel) => {
                        return Some((rel, line));
                    },
                    None => {},
                }
            }
        }
        i += 1;
    }
    None
}

/// `s` with `\` read as `/`.
fn replace_char_str_owned(s: &String) -> (out: String)
    ensures
        out@ == replace_char(s@, '\\', '/'),
{
    crate::text::replace_char_str(s.as_str(), '\\', '/')
}

/// Allocations grouped by attribution key, each key once.
#[derive(Debug)]
pub struct Attribution {
    groups: Vec<(AttrKey, Vec<RawAllocation>)>,
}

/// The abstract keys of a list of groups.
pub open spec fn group_keys(groups: Seq<(AttrKey, Vec<RawAllocation>)>) -> Seq<(Seq<char>, u32)> {
    Seq::new(groups.len(), |j: int| key_view(groups[j].0))
}

/// The abstract key of a group.
pub open spec fn key_view(k: AttrKey) -> (Seq<char>, u32) {
    (k.0@, k.1)
}

impl Attribution {
    /// The keys, in order of first attribution.
    pub closed spec fn keys(&self) -> Seq<(Seq<char>, u32)> {
        group_keys(self.groups@)
    }

    #[verifier::type_invariant]
    closed spec fn keys_unique(&self) -> bool {
        self.keys().no_duplicates()
    }

    /// The group of the `i`-th key.
    pub closed spec fn group(&self, i: int) -> Seq<RawAllocationView> {
        allocations_view(self.groups@[i].1@)
    }

    /// The map from keys to their allocations.
    pub closed spec fn as_map(&self) -> Map<(Seq<char>, u32), Seq<RawAllocationView>> {
        Map::new(
            |k: (Seq<char>, u32)| self.keys().contains(k),
            |k: (Seq<char>, u32)| self.group(self.keys().index_of(k)),
        )
    }

    proof fn lemma_group(&self, i: int)
        requires
            self.keys_unique(),
            0 <= i < self.keys().len(),
        ensures
            self.as_map().dom().contains(self.keys()[i]),
            self.as_map()[self.keys()[i]] == self.group(i),
    {
        let k = self.keys()[i];
        assert(self.keys().contains(k));
        let j = self.keys().index_of(k);
        assert(self.keys()[j] == k);
    }

    /// Number of distinct keys.
    pub fn len(&self) -> (n: usize)
        ensures
            n == self.keys().len(),
            n == self@.len(),
            self.keys().no_duplicates(),
            forall|k: (Seq<char>, u32)| #[trigger] self@.dom().contains(k) <==> self.keys().contains(k),
    {
        proof {
            use_type_invariant(self);
            assert(self@.dom() =~= self.keys().to_set());
            self.keys().unique_seq_to_set();
        }
        self.groups.len()
    }

    /// Whether nothing was attributed.
    pub fn is_empty(&self) -> (b: bool)
        ensures
            b == (self@.len() == 0),
    {
        self.len() == 0
    }

    /// The `i`-th key.
    pub fn key_at(&self, i: usize) -> (k: &AttrKey)
        requires
            i < self.keys().len(),
        ensures
            key_view(*k) == self.keys()[i as int],
    {
        &self.groups[i].0
    }

    /// The allocations of the `i`-th key.
    pub fn group_at(&self, i: usize) -> (g: &Vec<RawAllocation>)
        requires
            i < self.keys().len(),
        ensures
            self@.dom().contains(self.keys()[i as int]),
            allocations_view(g@) == self@[self.keys()[i as int]],
    {
        proof {
            use_type_invariant(self);
            self.lemma_group(i as int);
        }
        &self.groups[i].1
    }

    /// The allocations attributed to `key`, if any.
    pub fn get(&self, key: &AttrKey) -> (r: Option<&Vec<RawAllocation>>)
        ensures
            r is Some == self@.dom().contains(key_view(*key)),
            r matches Some(g) ==> allocations_view(g@) == self@[key_view(*key)],
    {
        proof { use_type_invariant(self); }
        let mut i: usize = 0;
        while i < self.groups.len()
            invariant
                i <= self.groups@.len(),
                self.keys_unique(),
                forall|j: int| 0 <= j < i ==> self.keys()[j] != key_view(*key),
            decreases self.groups@.len() - i,
        {
            if self.groups[i].0.1 == key.1 && self.groups[i].0.0 == key.0 {
                proof { self.lemma_group(i as int); }
                return Some(&self.groups[i].1);
            }
            i += 1;
        }
        proof {
            if self.keys().contains(key_view(*key)) {
                let j = choose|j: int| 0 <= j < self.keys().len() && #[trigger] self.keys()[j] == key_view(*key);
                assert(j < i);
            }
        }
        None
    }
}

impl View for Attribution {
    type V = Map<(Seq<char>, u32), Seq<RawAllocationView>>;

    open spec fn view(&self) -> Map<(Seq<char>, u32), Seq<RawAllocationView>> {
        self.as_map()
    }
}

/// Position of the group keyed `(file, line)`, if any.
fn find_group(groups: &Vec<(AttrKey, Vec<RawAllocation>)>, file: &String, line: u32) -> (r: Option<usize>)
    ensures
        match r {
            Some(g) => g < groups@.len() && key_view(groups@[g as int].0) == (file@, line),
            None => forall|j: int| 0 <= j < groups@.len() ==> key_view(#[trigger] groups@[j].0) != (file@, line),
        },
{
    let mut g: usize = 0;
    while g < groups.len()
        invariant
            g <= groups@.len(),
            forall|j: int| 0 <= j < g ==> key_view(#[trigger] groups@[j].0) != (file@, line),
        decreases groups@.len() - g,
    {
        if groups[g].0.1 == line && groups[g].0.0 == *file {
            return Some(g);
        }
        g += 1;
    }
    None
}

/// Attribute allocations to the first frame under `workspace_root`.
///
/// Returns, for each (file, line) some allocation is attributed to, all
/// allocations attributed there, in their original order; allocations with
/// no workspace frame are dropped.
pub fn attribute(allocations: &[RawAllocation], workspace_root: &str) -> (result: Attribution)
    ensures
        result@ == attribution_spec(allocations_view(allocations@), workspace_root@),
{
    let ghost av = allocations_view(allocations@);
    let ghost ws = workspace_root@;
    let mut groups: Vec<(AttrKey, Vec<RawAllocation>)> = Vec::new();
    let mut i: usize = 0;
    while i < allocations.len()
        invariant
            i <= allocations@.len(),
            av == allocations_view(allocations@),
            ws == workspace_root@,
            group_keys(groups@).no_duplicates(),
            forall|k: (Seq<char>, u32)| #[trigger] group_keys(groups@).contains(k)
                <==> (exists|t: int| 0 <= t < i && attribution_target(#[trigger] av[t].frames, ws) == Some(k)),
            forall|j: int| 0 <= j < groups@.len() ==> allocations_view(#[trigger] groups@[j].1@)
                == av.take(i as int).filter(attributed_to(ws, key_view(groups@[j].0))),
        decreases allocations@.len() - i,
    {
        let alloc = &allocations[i];
        let ghost keys0 = group_keys(groups@);
        let ghost groups0 = groups@;
        assert(av.take(i + 1) =~= av.take(i as int).push(av[i as int]));
        let target = find_attribution_frame(alloc.frames.as_slice(), workspace_root);
        assert(alloc.frames@.map_values(|f: ResolvedFrame| f@) =~= av[i as int].frames);
        match target {
            Some((file, line)) => {
                let ghost kv = (file@, line);
                let found_at = find_group(&groups, &file, line);
                let c = alloc.copy();
                if let Some(g) = found_at {
                    assert(key_view(groups@[g as int].0) == kv);
                    groups[g].1.push(c);
                    proof {
                        let keys1 = group_keys(groups@);
                        assert(keys1 =~= keys0);
                        assert forall|k: (Seq<char>, u32)| #[trigger] keys1.contains(k)
                            <==> (exists|t: int| 0 <= t < i + 1 && attribution_target(#[trigger] av[t].frames, ws) == Some(k)) by {
                            if exists|t: int| 0 <= t < i + 1 && attribution_target(#[trigger] av[t].frames, ws) == Some(k) {
                                let t = choose|t: int| 0 <= t < i + 1 && attribution_target(#[trigger] av[t].frames, ws) == Some(k);
                                if t == i {
                                    assert(keys1[g as int] == k);
                                }
                            }
                            if keys1.contains(k) {
                                assert(exists|t: int| 0 <= t < i && attribution_target(#[trigger] av[t].frames, ws) == Some(k));
                            }
                        }
                        assert forall|j: int| 0 <= j < groups@.len() implies allocations_view(#[trigger] groups@[j].1@)
                            == av.take(i + 1).filter(attributed_to(ws, key_view(groups@[j].0))) by {
                            let p = attributed_to(ws, key_view(groups@[j].0));
                            av.take(i as int).lemma_filter_push(av[i as int], p);
                            if j == g {
                                assert(allocations_view(groups@[j].1@) =~= allocations_view(groups0[j].1@).push(c@));
                            } else {
                                assert(groups@[j] == groups0[j]);
                                assert(keys0[j] != keys0[g as int]);
                            }
                        }
                    }
                } else {
                    let mut v: Vec<RawAllocation> = Vec::new();
                    v.push(c);
                    groups.push(((file, line), v));
                    proof {
                        let keys1 = group_keys(groups@);
                        assert(keys1 =~= keys0.push(kv));
                        assert(!keys0.contains(kv)) by {
                            if keys0.contains(kv) {
                                let j = choose|j: int| 0 <= j < keys0.len() && #[trigger] keys0[j] == kv;
                                assert(key_view(groups0[j].0) == kv);
                            }
                        }
                        assert forall|k: (Seq<char>, u32)| #[trigger] keys1.contains(k)
                            <==> (exists|t: int| 0 <= t < i + 1 && attribution_target(#[trigger] av[t].frames, ws) == Some(k)) by {
                            if exists|t: int| 0 <= t < i + 1 && attribution_target(#[trigger] av[t].frames, ws) == Some(k) {
                                let t = choose|t: int| 0 <= t < i + 1 && attribution_target(#[trigger] av[t].frames, ws) == Some(k);
                                if t == i {
                                    assert(keys1[keys0.len() as int] == k);
                                } else {
                                    assert(keys0.contains(k));
                                    let j = choose|j: int| 0 <= j < keys0.len() && #[trigger] keys0[j] == k;
                                    assert(keys1[j] == k);
                                }
                            }
                            if keys1.contains(k) {
                                let j = choose|j: int| 0 <= j < keys1.len() && #[trigger] keys1[j] == k;
                                if j < keys0.len() {
                                    assert(keys0[j] == k);
                                    assert(keys0.contains(k));
                                } else {
                                    assert(attribution_target(av[i as int].frames, ws) == Some(k));
                                }
                            }
                        }
                        assert forall|j: int| 0 <= j < groups@.len() implies allocations_view(#[trigger] groups@[j].1@)
                            == av.take(i + 1).filter(attributed_to(ws, key_view(groups@[j].0))) by {
                            let p = attributed_to(ws, key_view(groups@[j].0));
                            av.take(i as int).lemma_filter_push(av[i as int], p);
                            if j == groups0.len() {
                                assert(av.take(i as int).all(|x: RawAllocationView| !p(x))) by {
                                    assert forall|t: int| 0 <= t < av.take(i as int).len() implies !p(#[trigger] av.take(i as int)[t]) by {
                                        assert(av.take(i as int)[t] == av[t]);
                                        if p(av[t]) {
                                            assert(attribution_target(av[t].frames, ws) == Some(kv));
                                            assert(keys0.contains(kv));
                                        }
                                    }
                                }
                                av.take(i as int).lemma_all_neg_filter_empty(p);
                                assert(allocations_view(groups@[j].1@) =~= seq![c@]);
                                assert(av.take(i as int).filter(p).push(av[i as int]) =~= seq![c@]);
                            } else {
                                assert(groups@[j] == groups0[j]);
                                assert(keys0[j] != kv);
                            }
                        }
                    }
                }
            },
            None => {
                proof {
                    assert forall|k: (Seq<char>, u32)| #[trigger] keys0.contains(k)
                        <==> (exists|t: int| 0 <= t < i + 1 && attribution_target(#[trigger] av[t].frames, ws) == Some(k)) by {
                        if exists|t: int| 0 <= t < i + 1 && attribution_target(#[trigger] av[t].frames, ws) == Some(k) {
                            let t = choose|t: int| 0 <= t < i + 1 && attribution_target(#[trigger] av[t].frames, ws) == Some(k);
                            assert(t < i);
                        }
                    }
                    assert forall|j: int| 0 <= j < groups@.len() implies allocations_view(#[trigger] groups@[j].1@)
                        == av.take(i + 1).filter(attributed_to(ws, key_view(groups@[j].0))) by {
                        let p = attributed_to(ws, key_view(groups@[j].0));
                        av.take(i as int).lemma_filter_push(av[i as int], p);
                    }
                }
            },
        }
        i += 1;
    }
    assert(av.take(i as int) =~= av);
    let result = Attribution { groups };
    proof {
        use_type_invariant(&result);
        let spec = attribution_spec(av, ws);
        assert(result.keys() =~= group_keys(result.groups@));
        assert(result@ =~= spec) by {
            assert forall|k: (Seq<char>, u32)| #[trigger] result@.dom().contains(k) <==> spec.dom().contains(k) by {}
            assert forall|k: (Seq<char>, u32)| #[trigger] result@.dom().contains(k) implies result@[k] == spec[k] by {
                let j = choose|j: int| 0 <= j < result.keys().len() && #[trigger] result.keys()[j] == k;
                result.lemma_group(j);
            }
        }
    }
    result
}

/// Every allocation in a group is attributed to that group's line, and
/// every allocation with a target lies in the group of its target: the
/// grouping neither misplaces nor loses an allocation.
pub proof fn law_groups_hold_exactly_their_allocations(allocs: Seq<RawAllocationView>, workspace_root: Seq<char>)
    ensures
        forall|k: (Seq<char>, u32), j: int|
            #[trigger] attribution_spec(allocs, workspace_root).dom().contains(k)
                && 0 <= j < attribution_spec(allocs, workspace_root)[k].len()
                ==> attribution_target(#[trigger] attribution_spec(allocs, workspace_root)[k][j].frames, workspace_root) == Some(k),
        forall|i: int| 0 <= i < allocs.len() && (#[trigger] attribution_target(allocs[i].frames, workspace_root)) is Some ==> {
            let k = attribution_target(allocs[i].frames, workspace_root).unwrap();
            &&& attribution_spec(allocs, workspace_root).dom().contains(k)
            &&& attribution_spec(allocs, workspace_root)[k].contains(allocs[i])
        },
{
    let m = attribution_spec(allocs, workspace_root);
    assert forall|k: (Seq<char>, u32), j: int|
        #[trigger] m.dom().contains(k) && 0 <= j < m[k].len()
            implies attribution_target(#[trigger] m[k][j].frames, workspace_root) == Some(k) by {
        allocs.lemma_filter_pred(attributed_to(workspace_root, k), j);
    }
    assert forall|i: int| 0 <= i < allocs.len() && (#[trigger] attribution_target(allocs[i].frames, workspace_root)) is Some implies {
        let k = attribution_target(allocs[i].frames, workspace_root).unwrap();
        &&& m.dom().contains(k)
        &&& m[k].contains(allocs[i])
    } by {
        let k = attribution_target(allocs[i].frames, workspace_root).unwrap();
        assert(m.dom().contains(k));
        allocs.lemma_filter_contains(attributed_to(workspace_root, k), i);
    }
}

/// Reading `\` as `/` twice is reading it once.
proof fn lemma_replace_slash_idempotent(s: Seq<char>)
    ensures
        replace_char(replace_char(s, '\\', '/'), '\\', '/') == replace_char(s, '\\', '/'),
{
    assert(replace_char(replace_char(s, '\\', '/'), '\\', '/') =~= replace_char(s, '\\', '/'));
}

/// An absolute frame path that does not start with the workspace root has
/// no workspace-relative form: code outside the root is never attributed.
pub proof fn law_absolute_paths_outside_root_are_not_workspace(file: Seq<char>, workspace_root: Seq<char>)
    requires
        is_absolute(replace_char(file, '\\', '/')),
        !starts_with(replace_char(file, '\\', '/'), replace_char(workspace_root, '\\', '/')),
    ensures
        workspace_relative(file, workspace_root) is None,
{
}

/// A call stack whose every file is an absolute path outside the workspace
/// root (trailing `/` of the root ignored) is attributed nowhere.
pub proof fn law_stack_outside_root_is_not_attributed(frames: Seq<FrameView>, workspace_root: Seq<char>)
    requires
        forall|i: int| 0 <= i < frames.len() && (#[trigger] frames[i]).file is Some ==> {
            let f = replace_char(frames[i].file.unwrap(), '\\', '/');
            &&& is_absolute(f)
            &&& !starts_with(f, replace_char(trim_end_char(workspace_root, '/'), '\\', '/'))
        },
    ensures
        attribution_target(frames, workspace_root) is None,
{
    lemma_target_outside_root(frames, trim_end_char(workspace_root, '/'), 0);
}

proof fn lemma_target_outside_root(frames: Seq<FrameView>, w: Seq<char>, i: int)
    requires
        0 <= i,
        forall|k: int| 0 <= k < frames.len() && (#[trigger] frames[k]).file is Some ==> {
            let f = replace_char(frames[k].file.unwrap(), '\\', '/');
            &&& is_absolute(f)
            &&& !starts_with(f, replace_char(w, '\\', '/'))
        },
    ensures
        target_from(frames, w, i) is None,
    decreases frames.len() - i,
{
    if i < frames.len() {
        let fr = frames[i];
        if fr.file is Some {
            let g = replace_char(fr.file.unwrap(), '\\', '/');
            lemma_replace_slash_idempotent(fr.file.unwrap());
            assert(workspace_relative(g, w) is None);
        }
        lemma_target_outside_root(frames, w, i + 1);
    }
}

/// The allocations grouped under `k` in `m` (none when `k` has no group).
pub open spec fn group_of(m: Map<(Seq<char>, u32), Seq<RawAllocationView>>, k: (Seq<char>, u32)) -> Seq<RawAllocationView> {
    if m.dom().contains(k) {
        m[k]
    } else {
        Seq::empty()
    }
}

/// The group under `k` is the allocations attributed to `k`, in order, with
/// or without a group.
proof fn lemma_group_of_is_filter(allocs: Seq<RawAllocationView>, workspace_root: Seq<char>, k: (Seq<char>, u32))
    ensures
        group_of(attribution_spec(allocs, workspace_root), k) == allocs.filter(attributed_to(workspace_root, k)),
{
    let m = attribution_spec(allocs, workspace_root);
    if !m.dom().contains(k) {
        let p = attributed_to(workspace_root, k);
        assert(allocs.all(|x: RawAllocationView| !p(x))) by {
            assert forall|i: int| 0 <= i < allocs.len() implies !p(#[trigger] allocs[i]) by {
                if p(allocs[i]) {
                    assert(attribution_target(allocs[i].frames, workspace_root) == Some(k));
                }
            }
        }
        allocs.lemma_all_neg_filter_empty(p);
    }
}

/// Attributing two runs of allocations one after the other gives, under
/// every key, the first run's group followed by the second run's group.
pub proof fn law_attributing_a_concatenation_appends_groups(
    xs: Seq<RawAllocationView>,
    ys: Seq<RawAllocationView>,
    workspace_root: Seq<char>,
)
    ensures
        forall|k: (Seq<char>, u32)| #[trigger] group_of(attribution_spec(xs + ys, workspace_root), k)
            == group_of(attribution_spec(xs, workspace_root), k) + group_of(attribution_spec(ys, workspace_root), k),
{
    assert forall|k: (Seq<char>, u32)| #[trigger] group_of(attribution_spec(xs + ys, workspace_root), k)
        == group_of(attribution_spec(xs, workspace_root), k) + group_of(attribution_spec(ys, workspace_root), k) by {
        lemma_group_of_is_filter(xs + ys, workspace_root, k);
        lemma_group_of_is_filter(xs, workspace_root, k);
        lemma_group_of_is_filter(ys, workspace_root, k);
        Seq::filter_distributes_over_add(xs, ys, attributed_to(workspace_root, k));
    }
}

/// The text after the last `/` of `base + dir` is `dir`, when `dir` holds no
/// `/` and `base` is empty or ends with `/`.
proof fn lemma_after_last_dir(base: Seq<char>, dir: Seq<char>)
    requires
        free_of(dir, '/'),
        base.len() == 0 || base.last() == '/',
    ensures
        after_last(base + dir, '/') == dir,
    decreases dir.len(),
{
    if dir.len() == 0 {
        assert(base + dir =~= base);
        if base.len() > 0 {
            assert(after_last(base, '/') == Seq::<char>::empty());
        }
    } else {
        let s = base + dir;
        assert(s.last() == dir.last());
        assert(s.drop_last() =~= base + dir.drop_last());
        assert(free_of(dir.drop_last(), '/')) by {
            assert forall|i: int| 0 <= i < dir.drop_last().len() implies dir.drop_last()[i] != '/' by {
                assert(dir.drop_last()[i] == dir[i]);
            }
        }
        lemma_after_last_dir(base, dir.drop_last());
        assert(dir.drop_last().push(dir.last()) =~= dir);
    }
}

/// A relative frame path that starts with the workspace directory's own
/// name and `/` (as profiles of the workspace's binaries, benches, examples
/// and tests write them) is attributed to the rest of the path, whatever
/// directory that rest lies in, unless it is a known standard-library path.
pub proof fn law_workspace_dir_prefix_is_stripped(
    file: Seq<char>,
    workspace_root: Seq<char>,
    base: Seq<char>,
    dir: Seq<char>,
    rest: Seq<char>,
)
    requires
        replace_char(workspace_root, '\\', '/') == base + dir,
        base.len() == 0 || base.last() == '/',
        free_of(dir, '/'),
        replace_char(file, '\\', '/') == dir + seq!['/'] + rest,
        !is_absolute(replace_char(file, '\\', '/')),
        !starts_with(replace_char(file, '\\', '/'), replace_char(workspace_root, '\\', '/')),
        !known_non_workspace(rest),
    ensures
        workspace_relative(file, workspace_root) == Some(rest),
{
    let f = replace_char(file, '\\', '/');
    let w = replace_char(workspace_root, '\\', '/');
    lemma_after_last_dir(base, dir);
    let prefix = after_last(w, '/').push('/');
    assert(prefix =~= dir + seq!['/']);
    assert(f.take(prefix.len() as int) =~= prefix);
    assert(f.skip(prefix.len() as int) =~= rest);
}

/// A frame "resolves" in the workspace `w` when it has a file and a line and
/// its file has a workspace-relative form.
pub open spec fn resolves(f: FrameView, w: Seq<char>) -> bool {
    f.file is Some && f.line is Some && workspace_relative(replace_char(f.file.unwrap(), '\\', '/'), w) is Some
}

/// A call stack is attributed to its first frame that lies in the
/// workspace, the one nearest the allocator: the target is that frame's
/// relative path and line, no earlier frame lies in the workspace, and a
/// stack with no such frame is attributed nowhere.
pub proof fn law_attribution_picks_the_first_workspace_frame(frames: Seq<FrameView>, workspace_root: Seq<char>)
    ensures
        ({
            let w = trim_end_char(workspace_root, '/');
            match attribution_target(frames, workspace_root) {
                Some(t) => exists|i: int| 0 <= i < frames.len() && #[trigger] resolves(frames[i], w)
                    && (forall|j: int| 0 <= j < i ==> !#[trigger] resolves(frames[j], w))
                    && t == (workspace_relative(replace_char(frames[i].file.unwrap(), '\\', '/'), w).unwrap(), frames[i].line.unwrap()),
                None => forall|i: int| 0 <= i < frames.len() ==> !#[trigger] resolves(frames[i], w),
            }
        }),
{
    lemma_target_from_first(frames, trim_end_char(workspace_root, '/'), 0);
}

proof fn lemma_target_from_first(frames: Seq<FrameView>, w: Seq<char>, k: int)
    requires
        0 <= k,
    ensures
        match target_from(frames, w, k) {
            Some(t) => exists|i: int| k <= i < frames.len() && #[trigger] resolves(frames[i], w)
                && (forall|j: int| k <= j < i ==> !#[trigger] resolves(frames[j], w))
                && t == (workspace_relative(replace_char(frames[i].file.unwrap(), '\\', '/'), w).unwrap(), frames[i].line.unwrap()),
            None => forall|i: int| k <= i < frames.len() ==> !#[trigger] resolves(frames[i], w),
        },
    decreases frames.len() - k,
{
    if k < frames.len() {
        lemma_target_from_first(frames, w, k + 1);
        if resolves(frames[k], w) {
            assert(forall|j: int| k <= j < k ==> !#[trigger] resolves(frames[j], w));
        } else {
            match target_from(frames, w, k + 1) {
                Some(t) => {
                    let i = choose|i: int| k + 1 <= i < frames.len() && #[trigger] resolves(frames[i], w)
                        && (forall|j: int| k + 1 <= j < i ==> !#[trigger] resolves(frames[j], w))
                        && t == (workspace_relative(replace_char(frames[i].file.unwrap(), '\\', '/'), w).unwrap(), frames[i].line.unwrap());
                    assert forall|j: int| k <= j < i implies !#[trigger] resolves(frames[j], w) by {}
                },
                None => {},
            }
        }
    }
}

} // verus!
