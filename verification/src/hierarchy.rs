//! Rendering of an entity hierarchy as the lines of a tree-shaped log.
use vstd::prelude::*;
use vstd::string::*;

use crate::entity::{entity_debug, entity_debug_text, valid_entity_bits};

verus! {

// ---------------------------------------------------------------------------
// Component type names
// ---------------------------------------------------------------------------

/// `s` holds the separator `::` starting at position `j`.
pub open spec fn sep_at(s: Seq<char>, j: int) -> bool {
    0 <= j && j + 1 < s.len() && s[j] == ':' && s[j + 1] == ':'
}

/// `s` holds the separator `::` somewhere.
pub open spec fn has_sep(s: Seq<char>) -> bool {
    exists|j: int| #[trigger] sep_at(s, j)
}

/// The last piece of `s` when it is split on `::`, the separators being
/// matched from the left without overlap (as `str::split` does).
pub open spec fn last_segment(s: Seq<char>) -> Seq<char>
    decreases s.len(),
{
    if !has_sep(s) {
        s
    } else if s.len() >= 2 && s[0] == ':' && s[1] == ':' {
        last_segment(s.subrange(2, s.len() as int))
    } else if s.len() >= 1 {
        last_segment(s.subrange(1, s.len() as int))
    } else {
        s
    }
}

/// The position of the first `c` in `s` at or after `from`, or the length of
/// `s` when there is none.
pub open spec fn find_from(s: Seq<char>, c: char, from: int) -> int
    decreases s.len() - from,
{
    if from < 0 || from >= s.len() {
        s.len() as int
    } else if s[from] == c {
        from
    } else {
        find_from(s, c, from + 1)
    }
}

/// The short form of a component's type name shown in the log: the last path
/// segment; for a generic type, the last segment of the part before the first
/// `<`, then `<`, then the last segment of the part between the first `<` and
/// the next one (or the end).
pub open spec fn simple_name(s: Seq<char>) -> Seq<char> {
    let p = find_from(s, '<', 0);
    if p == s.len() {
        last_segment(s)
    } else {
        let q = find_from(s, '<', p + 1);
        last_segment(s.subrange(0, p)) + "<"@ + last_segment(s.subrange(p + 1, q))
    }
}

proof fn lemma_find_from_bounds(s: Seq<char>, c: char, from: int)
    requires
        0 <= from <= s.len(),
    ensures
        from <= find_from(s, c, from) <= s.len(),
        find_from(s, c, from) < s.len() ==> s[find_from(s, c, from)] == c,
        forall|k: int| from <= k < find_from(s, c, from) ==> s[k] != c,
    decreases s.len() - from,
{
    if from < s.len() && s[from] != c {
        lemma_find_from_bounds(s, c, from + 1);
    }
}

fn find_char_from(s: &str, c: char, from: usize) -> (pos: usize)
    requires
        from <= s@.len(),
    ensures
        pos == find_from(s@, c, from as int),
        from <= pos <= s@.len(),
{
    let n = s.unicode_len();
    let mut i = from;
    proof {
        lemma_find_from_bounds(s@, c, from as int);
    }
    while i < n
        invariant
            n == s@.len(),
            from <= i <= n,
            find_from(s@, c, from as int) == find_from(s@, c, i as int),
        decreases n - i,
    {
        if s.get_char(i) == c {
            return i;
        }
        i = i + 1;
    }
    i
}

proof fn lemma_no_sep_short(t: Seq<char>)
    requires
        t.len() < 2,
    ensures
        !has_sep(t),
{
    assert forall|j: int| !sep_at(t, j) by {}
}

/// Computes `last_segment` of `s`.
#[verifier::spinoff_prover]
#[verifier::rlimit(40)]
fn last_segment_of(s: &str) -> (seg: String)
    ensures
        seg@ == last_segment(s@),
{
    let n = s.unicode_len();
    let mut start: usize = 0;
    let mut i: usize = 0;
    assert(s@.subrange(0, n as int) =~= s@);
    while n > 0 && i < n - 1
        invariant
            n == s@.len(),
            start <= i <= n,
            last_segment(s@) == (if has_sep(s@.subrange(i as int, n as int)) {
                last_segment(s@.subrange(i as int, n as int))
            } else {
                s@.subrange(start as int, n as int)
            }),
        decreases n - i,
    {
        let ghost t = s@.subrange(i as int, n as int);
        if s.get_char(i) == ':' && s.get_char(i + 1) == ':' {
            proof {
                assert(sep_at(t, 0));
                assert(t.subrange(2, t.len() as int) =~= s@.subrange(i + 2, n as int));
                let u = s@.subrange(i + 2, n as int);
                if !has_sep(u) {
                    assert(last_segment(u) == u);
                }
            }
            start = i + 2;
            i = i + 2;
        } else {
            proof {
                let u = s@.subrange(i + 1, n as int);
                assert(t.subrange(1, t.len() as int) =~= u);
                if has_sep(t) {
                    let j = choose|j: int| sep_at(t, j);
                    assert(j != 0);
                    assert(sep_at(u, j - 1));
                } else {
                    if has_sep(u) {
                        let j = choose|j: int| sep_at(u, j);
                        assert(sep_at(t, j + 1));
                    }
                }
            }
            i = i + 1;
        }
    }
    proof {
        lemma_no_sep_short(s@.subrange(i as int, n as int));
    }
    String::from_str(s.substring_char(start, n))
}

/// The short form of a component's type name, as the hierarchy log shows it.
pub fn simple_component_name(name: &str) -> (simple: String)
    ensures
        simple@ == simple_name(name@),
{
    let n = name.unicode_len();
    let p = find_char_from(name, '<', 0);
    if p == n {
        last_segment_of(name)
    } else {
        let q = find_char_from(name, '<', p + 1);
        let left_part = name.substring_char(0, p);
        let generic_part = name.substring_char(p + 1, q);
        let mut simple = last_segment_of(left_part);
        simple.append("<");
        let generic = last_segment_of(generic_part);
        simple.append(generic.as_str());
        simple
    }
}

// ---------------------------------------------------------------------------
// The hierarchy and its log lines
// ---------------------------------------------------------------------------

/// A component of an entity as the hierarchy log sees it: its full type name
/// and whether the caller's component filter keeps it.
pub struct ComponentEntry {
    pub full_name: String,
    pub shown: bool,
}

/// An entity of the hierarchy: the bits of its identifier, its name if it has
/// one, its components in order, and its children in order.
pub struct HierarchyNode {
    pub entity: u64,
    pub name: Option<String>,
    pub components: Vec<ComponentEntry>,
    pub children: Vec<HierarchyNode>,
}

/// The texts held by a sequence of strings.
pub open spec fn views(v: Seq<String>) -> Seq<Seq<char>> {
    v.map_values(|s: String| s@)
}

pub open spec fn opt_view(o: Option<String>) -> Option<Seq<char>> {
    match o {
        Some(s) => Some(s@),
        None => None,
    }
}

/// Every entity of the tree rooted at `node`, found at depth `level`, has a
/// valid identifier, and no level reaches `usize::MAX`.
pub open spec fn well_formed_at(node: HierarchyNode, level: nat) -> bool
    decreases node, 0nat,
{
    &&& valid_entity_bits(node.entity)
    &&& level < usize::MAX
    &&& children_well_formed(node.children@, node.children@.len(), level + 1)
}

/// The first `k` of the trees `cs`, found at depth `level`, are well formed.
pub open spec fn children_well_formed(cs: Seq<HierarchyNode>, k: nat, level: nat) -> bool
    decreases cs, k,
{
    if k == 0 || k > cs.len() {
        true
    } else {
        children_well_formed(cs, (k - 1) as nat, level) && well_formed_at(cs[k - 1], level)
    }
}

proof fn lemma_children_well_formed(cs: Seq<HierarchyNode>, k: nat, level: nat, i: int)
    requires
        children_well_formed(cs, k, level),
        k <= cs.len(),
        0 <= i < k,
    ensures
        well_formed_at(cs[i], level),
    decreases k,
{
    if i < k - 1 {
        lemma_children_well_formed(cs, (k - 1) as nat, level, i);
    }
}

/// One indentation step of the padding: a vertical rule when the ancestor one
/// level above this step still has siblings to come, blank otherwise.
pub open spec fn pad_segment(i: nat, trace: Seq<usize>) -> Seq<char> {
    if i > 0 && trace.contains((i - 1) as usize) {
        "  ║ "@
    } else {
        "    "@
    }
}

/// The indentation of an entity at depth `level`.
pub open spec fn padding(level: nat, trace: Seq<usize>) -> Seq<char>
    decreases level,
{
    if level == 0 {
        Seq::empty()
    } else {
        padding((level - 1) as nat, trace) + pad_segment((level - 1) as nat, trace)
    }
}

/// How an entity is named in its line: `[<debug>] <name>` when it has a name,
/// `Entity <debug>` otherwise.
pub open spec fn entity_label(debug: Seq<char>, name: Option<Seq<char>>) -> Seq<char> {
    match name {
        Some(n) => "["@ + debug + "] "@ + n,
        None => "Entity "@ + debug,
    }
}

pub open spec fn branch_glyph(is_last: bool) -> Seq<char> {
    if is_last {
        "╚"@
    } else {
        "╠"@
    }
}

/// The line of an entity: its indentation, its branch, its label and a
/// colon. Every line of the log is laid out on a grid whose first two columns
/// are always blank; they are not shown.
pub open spec fn entity_line(pad: Seq<char>, is_last: bool, label: Seq<char>) -> Seq<char> {
    (pad + "  "@ + branch_glyph(is_last) + "══ "@ + label + ":"@).skip(2)
}

/// The gutter in front of a component: it continues the rule of the entity's
/// siblings (when the entity is not the last child) and of its children (when
/// it has any).
pub open spec fn child_pipe(is_last: bool, has_children: bool) -> Seq<char> {
    if is_last {
        if has_children {
            "      ║      "@
        } else {
            "             "@
        }
    } else {
        if has_children {
            "  ║   ║      "@
        } else {
            "  ║          "@
        }
    }
}

pub open spec fn component_glyph(is_last_component: bool) -> Seq<char> {
    if is_last_component {
        "└"@
    } else {
        "├"@
    }
}

/// The line of one component: the entity's indentation, the gutter, the
/// component's branch and its short name (the first two, blank, columns of
/// the grid not shown).
pub open spec fn component_line(
    pad: Seq<char>,
    is_last: bool,
    has_children: bool,
    is_last_component: bool,
    name: Seq<char>,
) -> Seq<char> {
    (pad + child_pipe(is_last, has_children) + component_glyph(is_last_component) + "── "@
        + name).skip(2)
}

/// The short names of the first `k` components that the filter keeps.
pub open spec fn shown_names(comps: Seq<ComponentEntry>, k: nat) -> Seq<Seq<char>>
    decreases k,
{
    if k == 0 || k > comps.len() {
        Seq::empty()
    } else if comps[k - 1].shown {
        shown_names(comps, (k - 1) as nat).push(simple_name(comps[k - 1].full_name@))
    } else {
        shown_names(comps, (k - 1) as nat)
    }
}

/// The lines of the shown components of an entity.
pub open spec fn component_lines(
    pad: Seq<char>,
    is_last: bool,
    has_children: bool,
    names: Seq<Seq<char>>,
) -> Seq<Seq<char>> {
    Seq::new(
        names.len(),
        |i: int| component_line(pad, is_last, has_children, i == names.len() - 1, names[i]),
    )
}

/// The trace handed to a child: the parent's trace, plus the parent's level
/// when the child is not the last one.
pub open spec fn child_trace(trace: Seq<usize>, level: usize, is_last: bool) -> Seq<usize> {
    if is_last {
        trace
    } else {
        trace.push(level)
    }
}

/// The lines logged for the tree rooted at `node`, shown at depth `level`:
/// the entity's line, one line per shown component, then the lines of each
/// child in order.
pub open spec fn node_lines(node: HierarchyNode, level: usize, is_last: bool, trace: Seq<usize>) -> Seq<
    Seq<char>,
>
    decreases node, 0nat,
{
    let pad = padding(level as nat, trace);
    let label = entity_label(entity_debug_text(node.entity), opt_view(node.name));
    let names = shown_names(node.components@, node.components@.len());
    seq![entity_line(pad, is_last, label)] + component_lines(
        pad,
        is_last,
        node.children@.len() > 0,
        names,
    ) + children_lines(node.children@, node.children@.len(), level, trace)
}

/// The lines of the first `k` of the children `cs` of an entity at depth `level`.
pub open spec fn children_lines(cs: Seq<HierarchyNode>, k: nat, level: usize, trace: Seq<usize>) -> Seq<
    Seq<char>,
>
    decreases cs, k,
{
    if k == 0 || k > cs.len() || level >= usize::MAX {
        Seq::empty()
    } else {
        let is_last = k == cs.len();
        children_lines(cs, (k - 1) as nat, level, trace) + node_lines(
            cs[k - 1],
            (level + 1) as usize,
            is_last,
            child_trace(trace, level, is_last),
        )
    }
}

proof fn lemma_well_formed_child(node: HierarchyNode, level: nat, i: int)
    requires
        well_formed_at(node, level),
        0 <= i < node.children@.len(),
    ensures
        well_formed_at(node.children@[i], level + 1),
{
    lemma_children_well_formed(node.children@, node.children@.len(), level + 1, i);
}

// ---------------------------------------------------------------------------
// Computing the lines
// ---------------------------------------------------------------------------

fn contains_level(trace: &Vec<usize>, x: usize) -> (found: bool)
    ensures
        found == trace@.contains(x),
{
    let mut i: usize = 0;
    while i < trace.len()
        invariant
            i <= trace.len(),
            forall|k: int| 0 <= k < i ==> trace@[k] != x,
        decreases trace.len() - i,
    {
        if trace[i] == x {
            return true;
        }
        i = i + 1;
    }
    false
}

/// The indentation of an entity at depth `level` whose ancestors' pending
/// siblings are recorded in `trace`.
pub fn padding_text(level: usize, trace: &Vec<usize>) -> (pad: String)
    ensures
        pad@ == padding(level as nat, trace@),
{
    let mut pad = String::new();
    let mut i: usize = 0;
    while i < level
        invariant
            i <= level,
            pad@ == padding(i as nat, trace@),
        decreases level - i,
    {
        let should_trace = i > 0 && contains_level(trace, i - 1);
        if should_trace {
            pad.append("  ║ ");
        } else {
            pad.append("    ");
        }
        i = i + 1;
    }
    pad
}

/// The label of an entity from the `Debug` text of its identifier and its
/// name, if any.
pub fn entity_label_text(debug: &str, name: &Option<String>) -> (label: String)
    ensures
        label@ == entity_label(debug@, opt_view(*name)),
{
    match name {
        Some(n) => {
            let mut label = String::from_str("[");
            label.append(debug);
            label.append("] ");
            label.append(n.as_str());
            label
        },
        None => {
            let mut label = String::from_str("Entity ");
            label.append(debug);
            label
        },
    }
}

/// The label of the entity whose identifier has the given bits.
pub fn entity_label_of(entity: u64, name: &Option<String>) -> (label: String)
    requires
        valid_entity_bits(entity),
    ensures
        label@ == entity_label(entity_debug_text(entity), opt_view(*name)),
{
    let debug = entity_debug(entity);
    entity_label_text(debug.as_str(), name)
}

fn child_pipe_text(is_last: bool, has_children: bool) -> (pipe: &'static str)
    ensures
        pipe@ == child_pipe(is_last, has_children),
        pipe@.len() >= 2,
{
    proof {
        reveal_strlit("      ║      ");
        reveal_strlit("             ");
        reveal_strlit("  ║   ║      ");
        reveal_strlit("  ║          ");
    }
    if is_last {
        if has_children {
            "      ║      "
        } else {
            "             "
        }
    } else {
        if has_children {
            "  ║   ║      "
        } else {
            "  ║          "
        }
    }
}

/// `line` without its first two characters.
fn without_first_columns(line: String) -> (shown: String)
    requires
        line@.len() >= 2,
    ensures
        shown@ == line@.skip(2),
{
    let n = line.as_str().unicode_len();
    String::from_str(line.as_str().substring_char(2, n))
}

/// The short names of the components that the filter keeps, in order.
pub fn shown_component_names(comps: &Vec<ComponentEntry>) -> (names: Vec<String>)
    ensures
        views(names@) == shown_names(comps@, comps@.len()),
{
    let mut names: Vec<String> = Vec::new();
    let mut k: usize = 0;
    while k < comps.len()
        invariant
            k <= comps.len(),
            views(names@) == shown_names(comps@, k as nat),
        decreases comps.len() - k,
    {
        if comps[k].shown {
            let simple = simple_component_name(comps[k].full_name.as_str());
            let ghost before = names@;
            names.push(simple);
            assert(views(names@) =~= views(before).push(simple@));
        }
        k = k + 1;
    }
    names
}

/// The command that logs an entity and, below it, its components and its
/// descendants: the depth of the entity, whether it is the last child of its
/// parent, and the depths of the ancestors that still have siblings to come.
pub struct LogHierarchy {
    pub level: usize,
    pub is_last: bool,
    pub trace_levels: Vec<usize>,
}

impl LogHierarchy {
    /// The command for the root of a logged hierarchy.
    pub fn new() -> (cmd: Self)
        ensures
            cmd.level == 0,
            cmd.is_last,
            cmd.trace_levels@ == Seq::<usize>::empty(),
    {
        LogHierarchy { level: 0, is_last: true, trace_levels: Vec::new() }
    }

    /// Appends to `out` the lines logged for the tree rooted at `node`.
    pub fn apply(&self, node: &HierarchyNode, out: &mut Vec<String>)
        requires
            well_formed_at(*node, self.level as nat),
        ensures
            views(final(out)@) == views(old(out)@) + node_lines(
                *node,
                self.level,
                self.is_last,
                self.trace_levels@,
            ),
        decreases *node,
    {
        let ghost out0 = views(out@);
        let pad = padding_text(self.level, &self.trace_levels);
        let label = entity_label_of(node.entity, &node.name);
        let has_children = node.children.len() > 0;

        let mut entity_text = pad.clone();
        entity_text.append("  ");
        entity_text.append(if self.is_last { "╚" } else { "╠" });
        entity_text.append("══ ");
        entity_text.append(label.as_str());
        entity_text.append(":");
        proof {
            reveal_strlit("  ");
        }
        let entity_shown = without_first_columns(entity_text);
        proof {
            assert(entity_shown@ == entity_line(pad@, self.is_last, label@));
        }
        out.push(entity_shown);

        let names = shown_component_names(&node.components);
        let ghost comp_lines = component_lines(pad@, self.is_last, has_children, views(names@));
        let ghost head = seq![entity_line(pad@, self.is_last, label@)];
        assert(views(out@) =~= out0 + head);
        let gutter = child_pipe_text(self.is_last, has_children);
        let m = names.len();
        let mut j: usize = 0;
        while j < m
            invariant
                m == names@.len(),
                j <= m,
                views(out@) == out0 + head + comp_lines.take(j as int),
                comp_lines == component_lines(pad@, self.is_last, has_children, views(names@)),
                gutter@ == child_pipe(self.is_last, has_children),
                gutter@.len() >= 2,
            decreases m - j,
        {
            let mut line = pad.clone();
            line.append(gutter);
            let glyph = if j == m - 1 { "└" } else { "├" };
            assert(glyph@ == component_glyph(j == m - 1));
            line.append(glyph);
            line.append("── ");
            line.append(names[j].as_str());
            let line = without_first_columns(line);
            proof {
                assert(views(names@)[j as int] == names@[j as int]@);
                assert(line@ == component_line(
                    pad@,
                    self.is_last,
                    has_children,
                    j == m - 1,
                    views(names@)[j as int],
                ));
            }
            let ghost before = views(out@);
            out.push(line);
            assert(views(out@) =~= before.push(line@));
            assert(comp_lines.take(j + 1) =~= comp_lines.take(j as int).push(comp_lines[j as int]));
            j = j + 1;
        }
        assert(comp_lines.take(m as int) =~= comp_lines);

        let n = node.children.len();
        let mut i: usize = 0;
        while i < n
            invariant
                n == node.children@.len(),
                i <= n,
                well_formed_at(*node, self.level as nat),
                views(out@) == out0 + head + comp_lines + children_lines(
                    node.children@,
                    i as nat,
                    self.level,
                    self.trace_levels@,
                ),
            decreases n - i,
        {
            let is_last = i == n - 1;
            let mut trace_levels = self.trace_levels.clone();
            assert(trace_levels@ =~= self.trace_levels@);
            if !is_last {
                trace_levels.push(self.level);
            }
            let cmd = LogHierarchy { level: self.level + 1, is_last, trace_levels };
            proof {
                lemma_well_formed_child(*node, self.level as nat, i as int);
            }
            cmd.apply(&node.children[i], out);
            i = i + 1;
        }
    }
}

/// Whether the tree rooted at `node`, found at depth `level`, is well formed.
fn well_formed_from(node: &HierarchyNode, level: usize) -> (ok: bool)
    ensures
        ok == well_formed_at(*node, level as nat),
    decreases *node,
{
    if !(0x1_0000_0000u64 <= node.entity && node.entity < 0x8000_0000_0000_0000u64) {
        return false;
    }
    if level == usize::MAX {
        return false;
    }
    let n = node.children.len();
    let mut k: usize = 0;
    while k < n
        invariant
            n == node.children@.len(),
            k <= n,
            level < usize::MAX,
            children_well_formed(node.children@, k as nat, level as nat + 1),
        decreases n - k,
    {
        if !well_formed_from(&node.children[k], level + 1) {
            proof {
                if well_formed_at(*node, level as nat) {
                    lemma_children_prefix(node.children@, n as nat, level as nat + 1, (k + 1) as nat);
                }
            }
            return false;
        }
        k = k + 1;
    }
    true
}

proof fn lemma_children_prefix(cs: Seq<HierarchyNode>, k: nat, level: nat, j: nat)
    requires
        children_well_formed(cs, k, level),
        0 < j <= k <= cs.len(),
    ensures
        well_formed_at(cs[j - 1], level),
    decreases k,
{
    if j < k {
        lemma_children_prefix(cs, (k - 1) as nat, level, j);
    }
}

/// Whether the hierarchy rooted at `root` can be logged: every identifier is
/// valid and the depth stays below `usize::MAX`.
pub fn hierarchy_well_formed(root: &HierarchyNode) -> (ok: bool)
    ensures
        ok == well_formed_at(*root, 0),
{
    well_formed_from(root, 0)
}

/// The lines that logging the hierarchy rooted at `root` writes, in order.
pub fn log_hierarchy_lines(root: &HierarchyNode) -> (lines: Vec<String>)
    requires
        well_formed_at(*root, 0),
    ensures
        views(lines@) == node_lines(*root, 0, true, Seq::empty()),
{
    let mut lines: Vec<String> = Vec::new();
    let cmd = LogHierarchy::new();
    cmd.apply(root, &mut lines);
    assert(views(lines@) =~= Seq::<Seq<char>>::empty() + node_lines(*root, 0, true, Seq::empty()));
    lines
}

/// Naming an entity, applied to the entity as the hierarchy log sees it.
pub trait EntityCommandsNamedExt {
    fn named(&mut self, name: String) -> &mut Self;
}

impl EntityCommandsNamedExt for HierarchyNode {
    fn named(&mut self, name: String) -> (node: &mut Self)
        ensures
            node.name == Some(name),
            node.entity == old(self).entity,
            node.components == old(self).components,
            node.children == old(self).children,
            *final(self) == *final(node),
    {
        self.name = Some(name);
        self
    }
}

// ---------------------------------------------------------------------------
// Laws of the hierarchy log
// ---------------------------------------------------------------------------

/// How many of the first `k` components the filter keeps.
pub open spec fn shown_count(comps: Seq<ComponentEntry>, k: nat) -> nat
    decreases k,
{
    if k == 0 || k > comps.len() {
        0
    } else if comps[k - 1].shown {
        shown_count(comps, (k - 1) as nat) + 1
    } else {
        shown_count(comps, (k - 1) as nat)
    }
}

/// The number of entities of the tree rooted at `node` plus the number of
/// their components that the filter keeps.
pub open spec fn tree_size(node: HierarchyNode) -> nat
    decreases node, 0nat,
{
    1 + shown_count(node.components@, node.components@.len()) + children_size(
        node.children@,
        node.children@.len(),
    )
}

/// `tree_size` summed over the first `k` of the trees `cs`.
pub open spec fn children_size(cs: Seq<HierarchyNode>, k: nat) -> nat
    decreases cs, k,
{
    if k == 0 || k > cs.len() {
        0
    } else {
        children_size(cs, (k - 1) as nat) + tree_size(cs[k - 1])
    }
}

proof fn lemma_shown_names_len(comps: Seq<ComponentEntry>, k: nat)
    ensures
        shown_names(comps, k).len() == shown_count(comps, k),
    decreases k,
{
    if k > 0 && k <= comps.len() {
        lemma_shown_names_len(comps, (k - 1) as nat);
    }
}

/// The log holds exactly one line per entity of the hierarchy and one per
/// component that the filter keeps.
pub proof fn lemma_line_count(node: HierarchyNode, level: usize, is_last: bool, trace: Seq<usize>)
    requires
        well_formed_at(node, level as nat),
    ensures
        node_lines(node, level, is_last, trace).len() == tree_size(node),
    decreases node, 0nat,
{
    lemma_shown_names_len(node.components@, node.components@.len());
    lemma_children_line_count(node.children@, node.children@.len(), level, trace);
}

/// The children part of `lemma_line_count`, for the first `k` of the
/// children `cs` of an entity at depth `level`.
pub proof fn lemma_children_line_count(cs: Seq<HierarchyNode>, k: nat, level: usize, trace: Seq<usize>)
    requires
        children_well_formed(cs, cs.len(), level as nat + 1),
        level < usize::MAX,
        k <= cs.len(),
    ensures
        children_lines(cs, k, level, trace).len() == children_size(cs, k),
    decreases cs, k,
{
    if k > 0 {
        lemma_children_line_count(cs, (k - 1) as nat, level, trace);
        lemma_children_well_formed(cs, cs.len(), level as nat + 1, k - 1);
        let is_last = k == cs.len();
        lemma_line_count(cs[k - 1], (level + 1) as usize, is_last, child_trace(trace, level, is_last));
    }
}

/// `s` begins with `p`.
pub open spec fn starts_with(s: Seq<char>, p: Seq<char>) -> bool {
    p.len() <= s.len() && s.subrange(0, p.len() as int) == p
}

/// The indentation of an entity at depth `level`, as shown (without the two
/// blank first columns of the grid).
pub open spec fn shown_indent(level: usize, trace: Seq<usize>) -> Seq<char> {
    if level == 0 {
        Seq::empty()
    } else {
        padding(level as nat, trace).skip(2)
    }
}

proof fn lemma_padding_len(level: nat, trace: Seq<usize>)
    ensures
        padding(level, trace).len() == 4 * level,
    decreases level,
{
    reveal_strlit("  ║ ");
    reveal_strlit("    ");
    if level > 0 {
        lemma_padding_len((level - 1) as nat, trace);
    }
}

/// Recording a depth at or below `level - 1` does not change the padding of
/// an entity at depth `level`.
proof fn lemma_padding_push(level: nat, trace: Seq<usize>, x: usize)
    requires
        x + 1 >= level,
    ensures
        padding(level, trace.push(x)) == padding(level, trace),
    decreases level,
{
    if level > 0 {
        lemma_padding_push((level - 1) as nat, trace, x);
        let i = (level - 1) as nat;
        if i > 0 {
            assert(trace.push(x).contains((i - 1) as usize) == trace.contains((i - 1) as usize)) by {
                if trace.push(x).contains((i - 1) as usize) {
                    let k = choose|k: int|
                        0 <= k < trace.push(x).len() && trace.push(x)[k] == (i - 1) as usize;
                    assert(k < trace.len());
                    assert(trace[k] == (i - 1) as usize);
                }
                if trace.contains((i - 1) as usize) {
                    let k = choose|k: int| 0 <= k < trace.len() && trace[k] == (i - 1) as usize;
                    assert(trace.push(x)[k] == (i - 1) as usize);
                }
            }
        }
    }
}

proof fn lemma_starts_with_trans(s: Seq<char>, p: Seq<char>, q: Seq<char>)
    requires
        starts_with(s, p),
        starts_with(p, q),
    ensures
        starts_with(s, q),
{
    assert(s.subrange(0, q.len() as int) =~= p.subrange(0, q.len() as int));
}

proof fn lemma_skip_starts_with(pad: Seq<char>, rest: Seq<char>)
    requires
        pad.len() >= 2,
    ensures
        starts_with((pad + rest).skip(2), pad.skip(2)),
{
    assert((pad + rest).skip(2).subrange(0, pad.len() - 2) =~= pad.skip(2));
}

/// Every line logged for the tree rooted at an entity begins with that
/// entity's indentation: a descendant is always drawn further in than its
/// ancestors, inside the rules they draw.
pub proof fn lemma_lines_indented(node: HierarchyNode, level: usize, is_last: bool, trace: Seq<usize>)
    requires
        well_formed_at(node, level as nat),
    ensures
        forall|k: int|
            0 <= k < node_lines(node, level, is_last, trace).len() ==> starts_with(
                #[trigger] node_lines(node, level, is_last, trace)[k],
                shown_indent(level, trace),
            ),
    decreases node, 0nat,
{
    let lines = node_lines(node, level, is_last, trace);
    let pad = padding(level as nat, trace);
    let label = entity_label(entity_debug_text(node.entity), opt_view(node.name));
    let names = shown_names(node.components@, node.components@.len());
    let has_children = node.children@.len() > 0;
    let comps = component_lines(pad, is_last, has_children, names);
    let kids = children_lines(node.children@, node.children@.len(), level, trace);
    lemma_padding_len(level as nat, trace);
    lemma_children_indented(node.children@, node.children@.len(), level, trace);
    assert forall|k: int| 0 <= k < lines.len() implies starts_with(
        #[trigger] lines[k],
        shown_indent(level, trace),
    ) by {
        if level == 0 {
            assert(shown_indent(level, trace) =~= Seq::<char>::empty());
            assert(lines[k].subrange(0, 0) =~= Seq::<char>::empty());
        } else if k == 0 {
            lemma_skip_starts_with(
                pad,
                "  "@ + branch_glyph(is_last) + "══ "@ + label + ":"@,
            );
            assert(pad + "  "@ + branch_glyph(is_last) + "══ "@ + label + ":"@ =~= pad + (
            "  "@ + branch_glyph(is_last) + "══ "@ + label + ":"@));
        } else if k < 1 + comps.len() {
            let j = k - 1;
            let rest = child_pipe(is_last, has_children) + component_glyph(j == names.len() - 1)
                + "── "@ + names[j];
            lemma_skip_starts_with(pad, rest);
            assert(pad + child_pipe(is_last, has_children) + component_glyph(j == names.len() - 1)
                + "── "@ + names[j] =~= pad + rest);
            assert(lines[k] == comps[j]);
        } else {
            assert(lines[k] == kids[k - 1 - comps.len()]);
        }
    }
}

/// The children part of `lemma_lines_indented`: every line of the first `k`
/// children `cs` of an entity at depth `level` begins with the entity's
/// indentation.
pub proof fn lemma_children_indented(cs: Seq<HierarchyNode>, k: nat, level: usize, trace: Seq<usize>)
    requires
        children_well_formed(cs, cs.len(), level as nat + 1),
        level < usize::MAX,
        k <= cs.len(),
    ensures
        forall|m: int|
            0 <= m < children_lines(cs, k, level, trace).len() ==> starts_with(
                #[trigger] children_lines(cs, k, level, trace)[m],
                shown_indent(level, trace),
            ),
    decreases cs, k,
{
    if k > 0 {
        lemma_children_indented(cs, (k - 1) as nat, level, trace);
        lemma_children_well_formed(cs, cs.len(), level as nat + 1, k - 1);
        let is_last = k == cs.len();
        let ct = child_trace(trace, level, is_last);
        let child = cs[k - 1];
        lemma_lines_indented(child, (level + 1) as usize, is_last, ct);
        let before = children_lines(cs, (k - 1) as nat, level, trace);
        let mine = node_lines(child, (level + 1) as usize, is_last, ct);
        let all = children_lines(cs, k, level, trace);
        assert(all == before + mine);
        if !is_last {
            lemma_padding_push(level as nat, trace, level);
        }
        assert(padding(level as nat, ct) == padding(level as nat, trace));
        lemma_padding_len(level as nat, trace);
        lemma_padding_len(level as nat + 1, ct);
        let outer = shown_indent(level, trace);
        let inner = shown_indent((level + 1) as usize, ct);
        assert(starts_with(inner, outer)) by {
            if level > 0 {
                assert(padding(level as nat + 1, ct) == padding(level as nat, ct) + pad_segment(
                    level as nat,
                    ct,
                ));
                assert(inner.subrange(0, outer.len() as int) =~= outer);
            } else {
                assert(outer =~= Seq::<char>::empty());
                assert(inner.subrange(0, 0) =~= Seq::<char>::empty());
            }
        }
        assert forall|m: int| 0 <= m < all.len() implies starts_with(#[trigger] all[m], outer) by {
            if m < before.len() {
                assert(all[m] == before[m]);
            } else {
                assert(all[m] == mine[m - before.len()]);
                lemma_starts_with_trans(all[m], inner, outer);
            }
        }
    }
}

/// The root of a logged hierarchy is drawn unindented, as a last branch:
/// its line is `╚══ `, its label and a colon.
pub proof fn lemma_root_line(root: HierarchyNode)
    ensures
        node_lines(root, 0, true, Seq::empty())[0] == "╚══ "@ + entity_label(
            entity_debug_text(root.entity),
            opt_view(root.name),
        ) + ":"@,
{
    reveal_strlit("  ");
    reveal_strlit("╚");
    reveal_strlit("══ ");
    reveal_strlit("╚══ ");
    let label = entity_label(entity_debug_text(root.entity), opt_view(root.name));
    let pad = padding(0, Seq::<usize>::empty());
    assert(pad =~= Seq::<char>::empty());
    assert((pad + "  "@ + branch_glyph(true) + "══ "@ + label + ":"@).skip(2) =~= "╚══ "@ + label
        + ":"@);
}

/// An entity that was named is shown, in its line, by its identifier in
/// brackets followed by its name.
pub proof fn lemma_named_line(
    node: HierarchyNode,
    name: String,
    level: usize,
    is_last: bool,
    trace: Seq<usize>,
)
    requires
        node.name == Some(name),
    ensures
        node_lines(node, level, is_last, trace)[0] == entity_line(
            padding(level as nat, trace),
            is_last,
            "["@ + entity_debug_text(node.entity) + "] "@ + name@,
        ),
{
}

proof fn lemma_last_segment_no_sep(s: Seq<char>)
    ensures
        !has_sep(last_segment(s)),
    decreases s.len(),
{
    if has_sep(s) {
        if s.len() >= 2 && s[0] == ':' && s[1] == ':' {
            lemma_last_segment_no_sep(s.subrange(2, s.len() as int));
        } else if s.len() >= 1 {
            lemma_last_segment_no_sep(s.subrange(1, s.len() as int));
        }
    }
}

/// The short name of a component never holds the path separator `::`.
pub proof fn lemma_simple_name_no_sep(s: Seq<char>)
    ensures
        !has_sep(simple_name(s)),
{
    reveal_strlit("<");
    let p = find_from(s, '<', 0);
    if p == s.len() {
        lemma_last_segment_no_sep(s);
    } else {
        lemma_find_from_bounds(s, '<', 0);
        lemma_find_from_bounds(s, '<', p + 1);
        let q = find_from(s, '<', p + 1);
        let a = last_segment(s.subrange(0, p));
        let b = last_segment(s.subrange(p + 1, q));
        lemma_last_segment_no_sep(s.subrange(0, p));
        lemma_last_segment_no_sep(s.subrange(p + 1, q));
        let r = a + "<"@ + b;
        assert forall|j: int| !sep_at(r, j) by {
            if sep_at(r, j) {
                if j + 1 < a.len() {
                    assert(sep_at(a, j));
                } else if j >= a.len() + 1 {
                    assert(sep_at(b, j - a.len() - 1));
                }
            }
        }
    }
}

/// A component whose type name holds neither `::` nor `<` is shown by its
/// full name.
pub proof fn lemma_simple_name_plain(s: Seq<char>)
    requires
        !has_sep(s),
        forall|k: int| 0 <= k < s.len() ==> s[k] != '<',
    ensures
        simple_name(s) == s,
{
    lemma_find_from_bounds(s, '<', 0);
}

/// The rules of the tree run through the lines of an entity's components: in
/// each of them, the column of the entity's branch (`╠` or `╚` in its own
/// line) carries `║` exactly when the entity has siblings to come, and the
/// column of its children's branches carries `║` exactly when it has
/// children.
pub proof fn lemma_component_rules(node: HierarchyNode, level: usize, is_last: bool, trace: Seq<usize>)
    ensures
        ({
            let lines = node_lines(node, level, is_last, trace);
            &&& lines.len() > shown_count(node.components@, node.components@.len())
            &&& lines[0].len() > 4 * level
            &&& lines[0][4 * level] == (if is_last {
                '╚'
            } else {
                '╠'
            })
        }),
        forall|k: int|
            1 <= k <= shown_count(node.components@, node.components@.len()) ==> {
                &&& (#[trigger] node_lines(node, level, is_last, trace)[k]).len() > 4 * level + 4
                &&& node_lines(node, level, is_last, trace)[k][4 * level] == (if is_last {
                    ' '
                } else {
                    '║'
                })
                &&& node_lines(node, level, is_last, trace)[k][4 * level + 4] == (if node.children@.len()
                    > 0 {
                    '║'
                } else {
                    ' '
                })
            },
{
    reveal_strlit("      ║      ");
    reveal_strlit("             ");
    reveal_strlit("  ║   ║      ");
    reveal_strlit("  ║          ");
    reveal_strlit("  ");
    reveal_strlit("╚");
    reveal_strlit("╠");
    let lines = node_lines(node, level, is_last, trace);
    let pad = padding(level as nat, trace);
    let label = entity_label(entity_debug_text(node.entity), opt_view(node.name));
    let names = shown_names(node.components@, node.components@.len());
    let has_children = node.children@.len() > 0;
    let comps = component_lines(pad, is_last, has_children, names);
    lemma_padding_len(level as nat, trace);
    lemma_shown_names_len(node.components@, node.components@.len());
    let full = pad + "  "@ + branch_glyph(is_last) + "══ "@ + label + ":"@;
    assert(lines[0] == full.skip(2));
    assert(full[4 * level + 2] == branch_glyph(is_last)[0]);
    assert forall|k: int| 1 <= k <= names.len() implies {
        &&& (#[trigger] lines[k]).len() > 4 * level + 4
        &&& lines[k][4 * level] == (if is_last {
            ' '
        } else {
            '║'
        })
        &&& lines[k][4 * level + 4] == (if has_children {
            '║'
        } else {
            ' '
        })
    } by {
        let j = k - 1;
        let pipe = child_pipe(is_last, has_children);
        let line = pad + pipe + component_glyph(j == names.len() - 1) + "── "@ + names[j];
        assert(lines[k] == comps[j]);
        assert(comps[j] == line.skip(2));
        assert(pipe.len() == 13);
        assert(line[4 * level + 2] == pipe[2]);
        assert(line[4 * level + 6] == pipe[6]);
    }
}

proof fn lemma_children_block(cs: Seq<HierarchyNode>, k: nat, level: usize, trace: Seq<usize>, i: int)
    requires
        children_well_formed(cs, cs.len(), level as nat + 1),
        level < usize::MAX,
        0 <= i < k <= cs.len(),
    ensures
        children_size(cs, (i + 1) as nat) <= children_lines(cs, k, level, trace).len(),
        children_lines(cs, k, level, trace).subrange(
            children_size(cs, i as nat) as int,
            children_size(cs, (i + 1) as nat) as int,
        ) == node_lines(
            cs[i],
            (level + 1) as usize,
            i == cs.len() - 1,
            child_trace(trace, level, i == cs.len() - 1),
        ),
    decreases k,
{
    let all = children_lines(cs, k, level, trace);
    let before = children_lines(cs, (k - 1) as nat, level, trace);
    let is_last = k == cs.len();
    let mine = node_lines(cs[k - 1], (level + 1) as usize, is_last, child_trace(trace, level, is_last));
    assert(all == before + mine);
    lemma_children_line_count(cs, (k - 1) as nat, level, trace);
    if i == k - 1 {
        lemma_children_well_formed(cs, cs.len(), level as nat + 1, i);
        lemma_line_count(cs[i], (level + 1) as usize, is_last, child_trace(trace, level, is_last));
        assert(all.subrange(before.len() as int, all.len() as int) =~= mine);
    } else {
        lemma_children_block(cs, (k - 1) as nat, level, trace, i);
        assert(all.subrange(children_size(cs, i as nat) as int, children_size(cs, (i + 1) as nat) as int)
            =~= before.subrange(
            children_size(cs, i as nat) as int,
            children_size(cs, (i + 1) as nat) as int,
        ));
    }
}

/// Each child's subtree is logged as a block of its own, in the order of the
/// children, right after the entity's component lines: the child is drawn
/// one level deeper, as the last branch only when it is the last child, and
/// with the parent's trace, to which the parent's level is added when the
/// child has siblings to come (so that the rule joining it to them is drawn
/// through its subtree); the last child's subtree is drawn with exactly the
/// parent's trace.
pub proof fn lemma_child_block(node: HierarchyNode, level: usize, is_last: bool, trace: Seq<usize>, i: int)
    requires
        well_formed_at(node, level as nat),
        0 <= i < node.children@.len(),
    ensures
        ({
            let lines = node_lines(node, level, is_last, trace);
            let start = (1 + shown_count(node.components@, node.components@.len())
                + children_size(node.children@, i as nat)) as int;
            let last = i == node.children@.len() - 1;
            let block = node_lines(
                node.children@[i],
                (level + 1) as usize,
                last,
                if last {
                    trace
                } else {
                    trace.push(level)
                },
            );
            start + block.len() <= lines.len() && lines.subrange(start, start + block.len() as int)
                == block
        }),
{
    let cs = node.children@;
    let lines = node_lines(node, level, is_last, trace);
    let pad = padding(level as nat, trace);
    let names = shown_names(node.components@, node.components@.len());
    let has_children = cs.len() > 0;
    let comps = component_lines(pad, is_last, has_children, names);
    let label = entity_label(entity_debug_text(node.entity), opt_view(node.name));
    let kids = children_lines(cs, cs.len(), level, trace);
    lemma_shown_names_len(node.components@, node.components@.len());
    assert(lines == seq![entity_line(pad, is_last, label)] + comps + kids);
    lemma_children_block(cs, cs.len(), level, trace, i);
    lemma_children_well_formed(cs, cs.len(), level as nat + 1, i);
    let last = i == cs.len() - 1;
    lemma_line_count(cs[i], (level + 1) as usize, last, child_trace(trace, level, last));
    let head = 1 + comps.len();
    let a = children_size(cs, i as nat) as int;
    let b = children_size(cs, (i + 1) as nat) as int;
    assert(lines.subrange(head + a, head + b) =~= kids.subrange(a, b));
}

} // verus!
