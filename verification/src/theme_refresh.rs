//! The decisions of a theme refresh: which themes apply to an entity and in
//! which order, which of their pseudo themes are merged and in which order, and
//! what is written back to the entity.
use vstd::prelude::*;

verus! {

// ---------------------------------------------------------------------------
// Themes in order of application
// ---------------------------------------------------------------------------

/// Where a theme that applies to an entity comes from: the entity itself, its
/// `i`-th ancestor (the parent being ancestor 0), or the component's default.
#[derive(Clone, Copy, Debug, PartialEq, Eq, Structural)]
pub enum ThemeSource {
    Own,
    Ancestor(usize),
    Default,
}

/// The ancestors among the first `k` (nearest first) that carry a theme.
pub open spec fn ancestor_sources(ancestors: Seq<bool>, k: nat) -> Seq<ThemeSource>
    decreases k,
{
    if k == 0 || k > ancestors.len() {
        Seq::empty()
    } else if ancestors[k - 1] {
        ancestor_sources(ancestors, (k - 1) as nat).push(ThemeSource::Ancestor((k - 1) as usize))
    } else {
        ancestor_sources(ancestors, (k - 1) as nat)
    }
}

/// The themes in the order they are looked up: the entity's own theme, the
/// themes of its ancestors from the parent upwards, then the default theme.
pub open spec fn lookup_order(own: bool, ancestors: Seq<bool>, default: bool) -> Seq<ThemeSource> {
    (if own {
        seq![ThemeSource::Own]
    } else {
        Seq::empty()
    }) + ancestor_sources(ancestors, ancestors.len()) + (if default {
        seq![ThemeSource::Default]
    } else {
        Seq::empty()
    })
}

/// The themes in the order they are applied: the lookup order reversed, so
/// that the default theme comes first and the entity's own theme last.
pub open spec fn application_order(own: bool, ancestors: Seq<bool>, default: bool) -> Seq<
    ThemeSource,
> {
    lookup_order(own, ancestors, default).reverse()
}

/// The themes that apply to an entity, in order of application, given whether
/// the entity has a theme of its own, whether each of its ancestors has one
/// (nearest first), and whether the themed component has a default theme.
/// `None` when no theme applies at all: the refresh then changes nothing.
pub fn theme_application_order(own_theme: bool, ancestor_themes: &Vec<bool>, default_theme: bool) -> (order: Option<Vec<ThemeSource>>)
    ensures
        match order {
            None => lookup_order(own_theme, ancestor_themes@, default_theme).len() == 0,
            Some(v) => {
                &&& v@ == application_order(own_theme, ancestor_themes@, default_theme)
                &&& v@.len() > 0
            },
        },
{
    let mut found: Vec<ThemeSource> = Vec::new();
    if own_theme {
        found.push(ThemeSource::Own);
    }
    let ghost own_part = found@;
    assert(own_part =~= (if own_theme {
        seq![ThemeSource::Own]
    } else {
        Seq::<ThemeSource>::empty()
    }));
    let mut k: usize = 0;
    while k < ancestor_themes.len()
        invariant
            k <= ancestor_themes.len(),
            found@ == own_part + ancestor_sources(ancestor_themes@, k as nat),
        decreases ancestor_themes.len() - k,
    {
        if ancestor_themes[k] {
            found.push(ThemeSource::Ancestor(k));
            assert(found@ =~= own_part + ancestor_sources(ancestor_themes@, (k + 1) as nat));
        }
        k = k + 1;
    }
    if default_theme {
        found.push(ThemeSource::Default);
    }
    assert(found@ =~= lookup_order(own_theme, ancestor_themes@, default_theme));
    if found.len() == 0 {
        return None;
    }
    let n = found.len();
    let mut order: Vec<ThemeSource> = Vec::new();
    let mut i: usize = 0;
    while i < n
        invariant
            n == found@.len(),
            i <= n,
            order@ =~= found@.reverse().take(i as int),
        decreases n - i,
    {
        order.push(found[n - 1 - i]);
        assert(order@ =~= found@.reverse().take(i + 1));
        i = i + 1;
    }
    assert(found@.reverse().take(n as int) =~= found@.reverse());
    Some(order)
}

// ---------------------------------------------------------------------------
// Pseudo themes in order of merging
// ---------------------------------------------------------------------------

/// What the selection needs to know of a pseudo theme: whether it is the base
/// theme (it applies whatever the entity's pseudo states), and how many of the
/// entity's pseudo states it matches (0 when it does not apply to them).
#[derive(Clone, Copy, Debug)]
pub struct PseudoThemeFacts {
    pub is_base: bool,
    pub match_count: usize,
}

/// The position of the first base pseudo theme of `pts` at or after `from`.
pub open spec fn first_base_from(pts: Seq<PseudoThemeFacts>, from: int) -> Option<usize>
    decreases pts.len() - from,
{
    if from < 0 || from >= pts.len() {
        None
    } else if pts[from].is_base {
        Some(from as usize)
    } else {
        first_base_from(pts, from + 1)
    }
}

/// The base pseudo themes chosen from the first `t` themes: the first base
/// pseudo theme of each theme that has one, as (theme, pseudo theme) positions.
pub open spec fn base_entries(themes: Seq<Seq<PseudoThemeFacts>>, t: nat) -> Seq<(usize, usize)>
    decreases t,
{
    if t == 0 || t > themes.len() {
        Seq::empty()
    } else {
        match first_base_from(themes[t - 1], 0) {
            Some(p) => base_entries(themes, (t - 1) as nat).push(((t - 1) as usize, p)),
            None => base_entries(themes, (t - 1) as nat),
        }
    }
}

/// The positions among the first `k` pseudo themes of theme `ti` that match
/// exactly `count` pseudo states.
pub open spec fn matching_entries(pts: Seq<PseudoThemeFacts>, ti: usize, count: nat, k: nat) -> Seq<
    (usize, usize),
>
    decreases k,
{
    if k == 0 || k > pts.len() {
        Seq::empty()
    } else if pts[k - 1].match_count == count {
        matching_entries(pts, ti, count, (k - 1) as nat).push((ti, (k - 1) as usize))
    } else {
        matching_entries(pts, ti, count, (k - 1) as nat)
    }
}

/// The pseudo themes of the first `t` themes that match exactly `count`
/// pseudo states, theme by theme.
pub open spec fn level_entries(themes: Seq<Seq<PseudoThemeFacts>>, count: nat, t: nat) -> Seq<
    (usize, usize),
>
    decreases t,
{
    if t == 0 || t > themes.len() {
        Seq::empty()
    } else {
        level_entries(themes, count, (t - 1) as nat) + matching_entries(
            themes[t - 1],
            (t - 1) as usize,
            count,
            themes[t - 1].len(),
        )
    }
}

/// The pseudo themes matching 1, then 2, ..., then `n` pseudo states.
pub open spec fn state_entries(themes: Seq<Seq<PseudoThemeFacts>>, n: nat) -> Seq<(usize, usize)>
    decreases n,
{
    if n == 0 {
        Seq::empty()
    } else {
        state_entries(themes, (n - 1) as nat) + level_entries(themes, n, themes.len())
    }
}

/// The pseudo themes merged into the entity's style, in order: the base
/// pseudo themes theme by theme, then the pseudo themes that match more and
/// more of the entity's `state_count` pseudo states.
pub open spec fn selection(themes: Seq<Seq<PseudoThemeFacts>>, state_count: nat) -> Seq<
    (usize, usize),
> {
    base_entries(themes, themes.len()) + state_entries(themes, state_count)
}

/// The facts of each theme's pseudo themes, as plain sequences.
pub open spec fn facts_view(themes: Seq<Vec<PseudoThemeFacts>>) -> Seq<Seq<PseudoThemeFacts>> {
    themes.map_values(|v: Vec<PseudoThemeFacts>| v@)
}

fn first_base(pts: &Vec<PseudoThemeFacts>) -> (found: Option<usize>)
    ensures
        found == first_base_from(pts@, 0),
{
    let mut p: usize = 0;
    while p < pts.len()
        invariant
            p <= pts.len(),
            first_base_from(pts@, 0) == first_base_from(pts@, p as int),
        decreases pts.len() - p,
    {
        if pts[p].is_base {
            return Some(p);
        }
        p = p + 1;
    }
    None
}

/// The pseudo themes to merge, as (theme, pseudo theme) positions into
/// `themes` (the themes in order of application), for an entity with
/// `state_count` pseudo states.
pub fn select_pseudo_themes(themes: &Vec<Vec<PseudoThemeFacts>>, state_count: usize) -> (selected: Vec<(usize, usize)>)
    ensures
        selected@ == selection(facts_view(themes@), state_count as nat),
{
    let ghost tv = facts_view(themes@);
    let nt = themes.len();
    let mut selected: Vec<(usize, usize)> = Vec::new();
    let mut t: usize = 0;
    while t < nt
        invariant
            nt == themes@.len(),
            tv == facts_view(themes@),
            t <= nt,
            selected@ == base_entries(tv, t as nat),
        decreases nt - t,
    {
        assert(tv[t as int] == themes@[t as int]@);
        match first_base(&themes[t]) {
            Some(p) => {
                selected.push((t, p));
            },
            None => {},
        }
        t = t + 1;
    }
    let ghost base = selected@;
    let mut i: usize = 0;
    while i < state_count
        invariant
            nt == themes@.len(),
            tv == facts_view(themes@),
            i <= state_count,
            base == base_entries(tv, nt as nat),
            selected@ == base + state_entries(tv, i as nat),
        decreases state_count - i,
    {
        let count = i + 1;
        let ghost before_level = selected@;
        let mut t: usize = 0;
        while t < nt
            invariant
                nt == themes@.len(),
                tv == facts_view(themes@),
                t <= nt,
                selected@ == before_level + level_entries(tv, count as nat, t as nat),
            decreases nt - t,
        {
            let pts = &themes[t];
            assert(tv[t as int] == pts@);
            let ghost before_theme = selected@;
            let mut p: usize = 0;
            while p < pts.len()
                invariant
                    p <= pts@.len(),
                    selected@ == before_theme + matching_entries(pts@, t, count as nat, p as nat),
                decreases pts.len() - p,
            {
                if pts[p].match_count == count {
                    selected.push((t, p));
                }
                assert(selected@ =~= before_theme + matching_entries(
                    pts@,
                    t,
                    count as nat,
                    (p + 1) as nat,
                ));
                p = p + 1;
            }
            assert(selected@ =~= before_level + level_entries(tv, count as nat, (t + 1) as nat));
            t = t + 1;
        }
        assert(selected@ =~= base + state_entries(tv, (i + 1) as nat));
        i = i + 1;
    }
    selected
}

// ---------------------------------------------------------------------------
// What is written back
// ---------------------------------------------------------------------------

/// What a theme refresh writes to the entity once the selected pseudo themes
/// have been merged: the style is removed when nothing was selected; otherwise
/// it is inserted, and an interactive or animated style also gets the
/// interaction components that the entity lacks.
#[derive(Clone, Copy, Debug, PartialEq, Eq, Structural)]
pub enum StyleUpdate {
    RemoveStyle,
    InsertStyle { insert_interaction: bool, insert_tracked_interaction: bool },
}

pub open spec fn spec_style_update(
    has_style: bool,
    interactive: bool,
    animated: bool,
    has_interaction: bool,
    has_flux_interaction: bool,
) -> StyleUpdate {
    if !has_style {
        StyleUpdate::RemoveStyle
    } else if interactive || animated {
        StyleUpdate::InsertStyle {
            insert_interaction: !has_interaction,
            insert_tracked_interaction: !has_flux_interaction,
        }
    } else {
        StyleUpdate::InsertStyle { insert_interaction: false, insert_tracked_interaction: false }
    }
}

/// The write-back of a theme refresh: `has_style` tells whether any pseudo
/// theme was selected (the merge then yields a style), `interactive` and
/// `animated` describe the merged style, and `has_interaction` and
/// `has_flux_interaction` whether the entity already has those components.
pub fn style_update(
    has_style: bool,
    interactive: bool,
    animated: bool,
    has_interaction: bool,
    has_flux_interaction: bool,
) -> (update: StyleUpdate)
    ensures
        update == spec_style_update(
            has_style,
            interactive,
            animated,
            has_interaction,
            has_flux_interaction,
        ),
{
    if !has_style {
        StyleUpdate::RemoveStyle
    } else if interactive || animated {
        StyleUpdate::InsertStyle {
            insert_interaction: !has_interaction,
            insert_tracked_interaction: !has_flux_interaction,
        }
    } else {
        StyleUpdate::InsertStyle { insert_interaction: false, insert_tracked_interaction: false }
    }
}

// ---------------------------------------------------------------------------
// The refresh as a whole
// ---------------------------------------------------------------------------

/// The pseudo themes of the theme that comes from `source`, given the pseudo
/// themes of the entity's own theme, of each ancestor's theme (nearest
/// first) and of the default theme, each `None` when that theme is absent.
pub open spec fn facts_of(
    source: ThemeSource,
    own: Option<Seq<PseudoThemeFacts>>,
    ancestors: Seq<Option<Seq<PseudoThemeFacts>>>,
    default: Option<Seq<PseudoThemeFacts>>,
) -> Seq<PseudoThemeFacts> {
    match source {
        ThemeSource::Own => own.unwrap(),
        ThemeSource::Ancestor(i) => ancestors[i as int].unwrap(),
        ThemeSource::Default => default.unwrap(),
    }
}

/// Which ancestors carry a theme.
pub open spec fn present(ancestors: Seq<Option<Seq<PseudoThemeFacts>>>) -> Seq<bool> {
    ancestors.map_values(|a: Option<Seq<PseudoThemeFacts>>| a is Some)
}

/// The pseudo themes of each applying theme, in order of application.
pub open spec fn themes_in_order(
    order: Seq<ThemeSource>,
    own: Option<Seq<PseudoThemeFacts>>,
    ancestors: Seq<Option<Seq<PseudoThemeFacts>>>,
    default: Option<Seq<PseudoThemeFacts>>,
) -> Seq<Seq<PseudoThemeFacts>> {
    order.map_values(|s: ThemeSource| facts_of(s, own, ancestors, default))
}

/// The pseudo themes merged by a refresh, each given by the theme it comes
/// from and its position among that theme's pseudo themes, in merge order;
/// `None` when no theme applies to the entity (the refresh then changes
/// nothing).
pub open spec fn refresh_selection(
    own: Option<Seq<PseudoThemeFacts>>,
    ancestors: Seq<Option<Seq<PseudoThemeFacts>>>,
    default: Option<Seq<PseudoThemeFacts>>,
    state_count: nat,
) -> Option<Seq<(ThemeSource, usize)>> {
    let order = application_order(own is Some, present(ancestors), default is Some);
    if order.len() == 0 {
        None
    } else {
        let sel = selection(themes_in_order(order, own, ancestors, default), state_count);
        Some(sel.map_values(|e: (usize, usize)| (order[e.0 as int], e.1)))
    }
}

pub open spec fn opt_facts(o: Option<Vec<PseudoThemeFacts>>) -> Option<Seq<PseudoThemeFacts>> {
    match o {
        Some(v) => Some(v@),
        None => None,
    }
}

fn copy_facts(v: &Vec<PseudoThemeFacts>) -> (c: Vec<PseudoThemeFacts>)
    ensures
        c@ == v@,
{
    let mut c: Vec<PseudoThemeFacts> = Vec::new();
    let mut i: usize = 0;
    while i < v.len()
        invariant
            i <= v.len(),
            c@ == v@.take(i as int),
        decreases v.len() - i,
    {
        c.push(v[i]);
        assert(c@ =~= v@.take(i + 1));
        i = i + 1;
    }
    assert(v@.take(v@.len() as int) =~= v@);
    c
}

/// The selection step of a theme refresh: which pseudo themes are merged,
/// and in which order, for an entity with `state_count` pseudo states, given
/// the pseudo themes of its own theme, of each of its ancestors' themes
/// (nearest first) and of the default theme (`None` where there is no such
/// theme). `None` when no theme applies.
pub fn plan_theme_refresh(
    own: &Option<Vec<PseudoThemeFacts>>,
    ancestors: &Vec<Option<Vec<PseudoThemeFacts>>>,
    default: &Option<Vec<PseudoThemeFacts>>,
    state_count: usize,
) -> (selected: Option<Vec<(ThemeSource, usize)>>)
    ensures
        match selected {
            None => refresh_selection(
                opt_facts(*own),
                ancestors@.map_values(|a: Option<Vec<PseudoThemeFacts>>| opt_facts(a)),
                opt_facts(*default),
                state_count as nat,
            ) == None::<Seq<(ThemeSource, usize)>>,
            Some(v) => refresh_selection(
                opt_facts(*own),
                ancestors@.map_values(|a: Option<Vec<PseudoThemeFacts>>| opt_facts(a)),
                opt_facts(*default),
                state_count as nat,
            ) == Some(v@),
        },
{
    let ghost own_v = opt_facts(*own);
    let ghost anc_v = ancestors@.map_values(|a: Option<Vec<PseudoThemeFacts>>| opt_facts(a));
    let ghost def_v = opt_facts(*default);

    let mut flags: Vec<bool> = Vec::new();
    let mut k: usize = 0;
    while k < ancestors.len()
        invariant
            k <= ancestors.len(),
            anc_v == ancestors@.map_values(|a: Option<Vec<PseudoThemeFacts>>| opt_facts(a)),
            flags@ == present(anc_v).take(k as int),
        decreases ancestors.len() - k,
    {
        flags.push(ancestors[k].is_some());
        assert(flags@ =~= present(anc_v).take(k + 1));
        k = k + 1;
    }
    assert(flags@ =~= present(anc_v));
    let order = match theme_application_order(own.is_some(), &flags, default.is_some()) {
        None => {
            return None;
        },
        Some(order) => order,
    };
    let ghost ov = application_order(own_v is Some, present(anc_v), def_v is Some);
    assert(order@ == ov);
    proof {
        lemma_application_order(own_v is Some, present(anc_v), def_v is Some);
    }

    let mut themes: Vec<Vec<PseudoThemeFacts>> = Vec::new();
    let mut t: usize = 0;
    while t < order.len()
        invariant
            t <= order@.len(),
            order@ == ov,
            ov == application_order(own_v is Some, present(anc_v), def_v is Some),
            own_v == opt_facts(*own),
            def_v == opt_facts(*default),
            anc_v == ancestors@.map_values(|a: Option<Vec<PseudoThemeFacts>>| opt_facts(a)),
            present(anc_v).len() == ancestors@.len(),
            forall|j: int| 0 <= j < ov.len() && ov[j] == ThemeSource::Own ==> own_v is Some,
            forall|j: int| 0 <= j < ov.len() && ov[j] == ThemeSource::Default ==> def_v is Some,
            forall|x: usize|
                #![trigger ov.contains(ThemeSource::Ancestor(x))]
                ov.contains(ThemeSource::Ancestor(x)) <==> (x < present(anc_v).len()
                    && present(anc_v)[x as int]),
            facts_view(themes@) == themes_in_order(ov, own_v, anc_v, def_v).take(t as int),
            forall|j: int| 0 <= j < t ==> #[trigger] facts_view(themes@)[j].len() <= usize::MAX,
        decreases order.len() - t,
    {
        let facts = match order[t] {
            ThemeSource::Own => {
                match own {
                    Some(v) => copy_facts(v),
                    None => Vec::new(),
                }
            },
            ThemeSource::Ancestor(i) => {
                assert(ov.contains(ThemeSource::Ancestor(i)));
                match &ancestors[i] {
                    Some(v) => copy_facts(v),
                    None => Vec::new(),
                }
            },
            ThemeSource::Default => {
                match default {
                    Some(v) => copy_facts(v),
                    None => Vec::new(),
                }
            },
        };
        proof {
            assert(facts@ == facts_of(ov[t as int], own_v, anc_v, def_v));
        }
        let facts_len = facts.len();
        assert(facts@.len() == facts_len);
        let ghost before = themes@;
        themes.push(facts);
        assert(facts_view(themes@) =~= themes_in_order(ov, own_v, anc_v, def_v).take(t + 1)) by {
            assert(facts_view(themes@) =~= facts_view(before).push(facts@));
        }
        t = t + 1;
    }
    assert(themes_in_order(ov, own_v, anc_v, def_v).take(order@.len() as int) =~= themes_in_order(
        ov,
        own_v,
        anc_v,
        def_v,
    ));

    proof {
        let tv = themes_in_order(ov, own_v, anc_v, def_v);
        assert forall|i: int| 0 <= i < tv.len() implies tv[i].len() <= usize::MAX by {
            assert(facts_view(themes@)[i] == tv[i]);
        }
    }
    let picked = select_pseudo_themes(&themes, state_count);
    let ghost sel = selection(themes_in_order(ov, own_v, anc_v, def_v), state_count as nat);
    assert(picked@ == sel);
    proof {
        lemma_selection_order(themes_in_order(ov, own_v, anc_v, def_v), state_count as nat);
        assert forall|j: int| 0 <= j < sel.len() implies #[trigger] sel[j].0 < ov.len() by {
            assert(valid_entry(themes_in_order(ov, own_v, anc_v, def_v), sel[j]));
        }
    }
    let mut selected: Vec<(ThemeSource, usize)> = Vec::new();
    let mut m: usize = 0;
    while m < picked.len()
        invariant
            m <= picked@.len(),
            picked@ == sel,
            order@ == ov,
            forall|j: int| 0 <= j < sel.len() ==> #[trigger] sel[j].0 < ov.len(),
            selected@ == sel.map_values(|e: (usize, usize)| (ov[e.0 as int], e.1)).take(m as int),
        decreases picked.len() - m,
    {
        let (ti, pi) = picked[m];
        assert(sel[m as int].0 < ov.len());
        selected.push((order[ti], pi));
        assert(selected@ =~= sel.map_values(|e: (usize, usize)| (ov[e.0 as int], e.1)).take(m + 1));
        m = m + 1;
    }
    assert(sel.map_values(|e: (usize, usize)| (ov[e.0 as int], e.1)).take(picked@.len() as int)
        =~= sel.map_values(|e: (usize, usize)| (ov[e.0 as int], e.1)));
    Some(selected)
}

/// The write-back step of a theme refresh, once the selected pseudo themes
/// have been merged: the style is removed exactly when nothing was selected;
/// `interactive` and `animated` describe the merged style, `has_interaction`
/// and `has_flux_interaction` whether the entity already has those
/// components.
pub fn refresh_style_update(
    selected: &Vec<(ThemeSource, usize)>,
    interactive: bool,
    animated: bool,
    has_interaction: bool,
    has_flux_interaction: bool,
) -> (update: StyleUpdate)
    ensures
        update == spec_style_update(
            selected@.len() > 0,
            interactive,
            animated,
            has_interaction,
            has_flux_interaction,
        ),
        (update == StyleUpdate::RemoveStyle) <==> selected@.len() == 0,
{
    style_update(selected.len() > 0, interactive, animated, has_interaction, has_flux_interaction)
}

// ---------------------------------------------------------------------------
// Laws of the theme refresh
// ---------------------------------------------------------------------------

/// The ancestor a theme comes from, or -1 for the entity's own theme and the
/// default theme.
pub open spec fn ancestor_of(source: ThemeSource) -> int {
    match source {
        ThemeSource::Ancestor(i) => i as int,
        _ => -1,
    }
}

proof fn lemma_ancestor_sources(ancestors: Seq<bool>, k: nat)
    requires
        k <= ancestors.len(),
        ancestors.len() <= usize::MAX,
    ensures
        forall|i: int|
            0 <= i < ancestor_sources(ancestors, k).len() ==> 0 <= #[trigger] ancestor_of(
                ancestor_sources(ancestors, k)[i],
            ) < k,
        forall|i: int, j: int|
            0 <= i < j < ancestor_sources(ancestors, k).len() ==> #[trigger] ancestor_of(
                ancestor_sources(ancestors, k)[i],
            ) < #[trigger] ancestor_of(ancestor_sources(ancestors, k)[j]),
        forall|x: usize|
            #![trigger ancestor_sources(ancestors, k).contains(ThemeSource::Ancestor(x))]
            ancestor_sources(ancestors, k).contains(ThemeSource::Ancestor(x)) <==> (x < k
                && ancestors[x as int]),
    decreases k,
{
    if k > 0 {
        let prev = ancestor_sources(ancestors, (k - 1) as nat);
        lemma_ancestor_sources(ancestors, (k - 1) as nat);
        let cur = ancestor_sources(ancestors, k);
        if ancestors[k - 1] {
            let last = ThemeSource::Ancestor((k - 1) as usize);
            assert(cur == prev.push(last));
            assert forall|x: usize|
                #![trigger cur.contains(ThemeSource::Ancestor(x))]
                cur.contains(ThemeSource::Ancestor(x)) <==> (x < k && ancestors[x as int]) by {
                if cur.contains(ThemeSource::Ancestor(x)) {
                    let i = choose|i: int| 0 <= i < cur.len() && cur[i] == ThemeSource::Ancestor(x);
                    if i < prev.len() {
                        assert(prev[i] == cur[i]);
                        assert(prev.contains(ThemeSource::Ancestor(x)));
                    }
                }
                if x < k && ancestors[x as int] {
                    if x < k - 1 {
                        assert(prev.contains(ThemeSource::Ancestor(x)));
                        let i = choose|i: int|
                            0 <= i < prev.len() && prev[i] == ThemeSource::Ancestor(x);
                        assert(cur[i] == prev[i]);
                    } else {
                        assert(cur[cur.len() - 1] == ThemeSource::Ancestor(x));
                    }
                }
            }
            assert forall|i: int, j: int|
                0 <= i < j < cur.len() implies #[trigger] ancestor_of(cur[i])
                < #[trigger] ancestor_of(cur[j]) by {
                assert(cur[i] == prev[i]);
                assert(0 <= ancestor_of(prev[i]) < k - 1);
                if j < prev.len() {
                    assert(cur[j] == prev[j]);
                } else {
                    assert(cur[j] == last);
                }
            }
            assert forall|i: int| 0 <= i < cur.len() implies 0 <= #[trigger] ancestor_of(cur[i]) < k by {
                if i < prev.len() {
                    assert(cur[i] == prev[i]);
                    assert(0 <= ancestor_of(prev[i]) < k - 1);
                } else {
                    assert(cur[i] == last);
                }
            }
        } else {
            assert(cur == prev);
            assert forall|x: usize|
                #![trigger cur.contains(ThemeSource::Ancestor(x))]
                cur.contains(ThemeSource::Ancestor(x)) <==> (x < k && ancestors[x as int]) by {
                assert(prev.contains(ThemeSource::Ancestor(x)) <==> (x < k - 1 && ancestors[x as int]));
            }
            assert forall|i: int| 0 <= i < cur.len() implies 0 <= #[trigger] ancestor_of(cur[i]) < k by {
                assert(0 <= ancestor_of(prev[i]) < k - 1);
            }
        }
    }
}

/// Themes apply from the most general to the most specific: the default
/// theme first, then the ancestors' themes from the farthest ancestor to the
/// parent, and the entity's own theme last; every ancestor with a theme
/// contributes it.
pub proof fn lemma_application_order(own: bool, ancestors: Seq<bool>, default: bool)
    requires
        ancestors.len() <= usize::MAX,
    ensures
        default ==> application_order(own, ancestors, default).len() > 0
            && application_order(own, ancestors, default)[0] == ThemeSource::Default,
        own ==> application_order(own, ancestors, default).len() > 0 && application_order(
            own,
            ancestors,
            default,
        ).last() == ThemeSource::Own,
        forall|i: int, j: int|
            0 <= i < j < application_order(own, ancestors, default).len() && ancestor_of(
                #[trigger] application_order(own, ancestors, default)[i],
            ) >= 0 && ancestor_of(#[trigger] application_order(own, ancestors, default)[j]) >= 0
                ==> ancestor_of(application_order(own, ancestors, default)[i]) > ancestor_of(
                application_order(own, ancestors, default)[j],
            ),
        forall|x: usize|
            #![trigger application_order(own, ancestors, default).contains(ThemeSource::Ancestor(x))]
            application_order(own, ancestors, default).contains(ThemeSource::Ancestor(x)) <==> (x
                < ancestors.len() && ancestors[x as int]),
        forall|j: int|
            0 <= j < application_order(own, ancestors, default).len()
                && #[trigger] application_order(own, ancestors, default)[j] == ThemeSource::Own
                ==> own,
        forall|j: int|
            0 <= j < application_order(own, ancestors, default).len()
                && #[trigger] application_order(own, ancestors, default)[j] == ThemeSource::Default
                ==> default,
{
    let head: Seq<ThemeSource> = if own {
        seq![ThemeSource::Own]
    } else {
        Seq::empty()
    };
    let mid = ancestor_sources(ancestors, ancestors.len());
    let tail: Seq<ThemeSource> = if default {
        seq![ThemeSource::Default]
    } else {
        Seq::empty()
    };
    let look = lookup_order(own, ancestors, default);
    let order = application_order(own, ancestors, default);
    assert(look == head + mid + tail);
    lemma_ancestor_sources(ancestors, ancestors.len());
    assert(order.len() == look.len());
    assert forall|k: int| 0 <= k < order.len() implies #[trigger] order[k] == look[look.len() - 1 - k] by {}
    assert forall|j: int|
        0 <= j < order.len() && #[trigger] order[j] == ThemeSource::Own implies own by {
        let a = look.len() - 1 - j;
        if a >= head.len() && a < head.len() + mid.len() {
            assert(look[a] == mid[a - head.len()]);
            assert(0 <= ancestor_of(mid[a - head.len()]));
        }
    }
    assert forall|j: int|
        0 <= j < order.len() && #[trigger] order[j] == ThemeSource::Default implies default by {
        let a = look.len() - 1 - j;
        if a >= head.len() && a < head.len() + mid.len() {
            assert(look[a] == mid[a - head.len()]);
            assert(0 <= ancestor_of(mid[a - head.len()]));
        }
    }
    assert forall|i: int, j: int|
        0 <= i < j < order.len() && ancestor_of(#[trigger] order[i]) >= 0 && ancestor_of(
            #[trigger] order[j],
        ) >= 0 implies ancestor_of(order[i]) > ancestor_of(order[j]) by {
        let a = look.len() - 1 - j;
        let b = look.len() - 1 - i;
        assert(order[i] == look[b]);
        assert(order[j] == look[a]);
        assert(a < b);
        assert(head.len() <= a) by {
            if head.len() > a {
                assert(look[a] == ThemeSource::Own);
            }
        }
        assert(b < head.len() + mid.len()) by {
            if b >= head.len() + mid.len() {
                assert(look[b] == ThemeSource::Default);
            }
        }
        assert(look[a] == mid[a - head.len()]);
        assert(look[b] == mid[b - head.len()]);
    }
    assert forall|x: usize|
        #![trigger order.contains(ThemeSource::Ancestor(x))]
        order.contains(ThemeSource::Ancestor(x)) <==> (x < ancestors.len() && ancestors[x as int]) by {
        if order.contains(ThemeSource::Ancestor(x)) {
            let k = choose|k: int| 0 <= k < order.len() && order[k] == ThemeSource::Ancestor(x);
            let a = look.len() - 1 - k;
            assert(look[a] == ThemeSource::Ancestor(x));
            assert(head.len() <= a < head.len() + mid.len()) by {
                if a < head.len() {
                    assert(look[a] == ThemeSource::Own);
                }
                if a >= head.len() + mid.len() {
                    assert(look[a] == ThemeSource::Default);
                }
            }
            assert(mid[a - head.len()] == ThemeSource::Ancestor(x));
            assert(mid.contains(ThemeSource::Ancestor(x)));
        }
        if x < ancestors.len() && ancestors[x as int] {
            assert(mid.contains(ThemeSource::Ancestor(x)));
            let m = choose|m: int| 0 <= m < mid.len() && mid[m] == ThemeSource::Ancestor(x);
            let a = head.len() + m;
            assert(look[a] == mid[m]);
            assert(order[look.len() - 1 - a] == look[a]);
        }
    }
}

/// A (theme, pseudo theme) position that exists in `themes`.
pub open spec fn valid_entry(themes: Seq<Seq<PseudoThemeFacts>>, e: (usize, usize)) -> bool {
    e.0 < themes.len() && e.1 < themes[e.0 as int].len()
}

/// The facts of the pseudo theme at a position.
pub open spec fn entry_facts(themes: Seq<Seq<PseudoThemeFacts>>, e: (usize, usize)) -> PseudoThemeFacts {
    themes[e.0 as int][e.1 as int]
}

/// Whether position `a` comes before position `b` in declaration order: an
/// earlier theme, or the same theme and an earlier pseudo theme.
pub open spec fn declared_before(a: (usize, usize), b: (usize, usize)) -> bool {
    a.0 < b.0 || (a.0 == b.0 && a.1 < b.1)
}

proof fn lemma_first_base_from(pts: Seq<PseudoThemeFacts>, from: int)
    requires
        0 <= from <= pts.len(),
        pts.len() <= usize::MAX,
    ensures
        match first_base_from(pts, from) {
            Some(p) => from <= p < pts.len() && pts[p as int].is_base && forall|k: int|
                from <= k < p ==> !pts[k].is_base,
            None => forall|k: int| from <= k < pts.len() ==> !pts[k].is_base,
        },
    decreases pts.len() - from,
{
    if from < pts.len() && !pts[from].is_base {
        lemma_first_base_from(pts, from + 1);
    }
}

proof fn lemma_base_entries(themes: Seq<Seq<PseudoThemeFacts>>, t: nat)
    requires
        t <= themes.len(),
        forall|i: int| 0 <= i < themes.len() ==> themes[i].len() <= usize::MAX,
        themes.len() <= usize::MAX,
    ensures
        forall|k: int|
            0 <= k < base_entries(themes, t).len() ==> valid_entry(
                themes,
                #[trigger] base_entries(themes, t)[k],
            ) && entry_facts(themes, base_entries(themes, t)[k]).is_base && base_entries(
                themes,
                t,
            )[k].0 < t,
        forall|i: int, j: int|
            0 <= i < j < base_entries(themes, t).len() ==> (#[trigger] base_entries(themes, t)[i]).0
                < (#[trigger] base_entries(themes, t)[j]).0,
    decreases t,
{
    if t > 0 {
        lemma_base_entries(themes, (t - 1) as nat);
        lemma_first_base_from(themes[t - 1], 0);
        let prev = base_entries(themes, (t - 1) as nat);
        let cur = base_entries(themes, t);
        match first_base_from(themes[t - 1], 0) {
            Some(p) => {
                let e = ((t - 1) as usize, p);
                assert(cur == prev.push(e));
                assert forall|k: int| 0 <= k < cur.len() implies valid_entry(
                    themes,
                    #[trigger] cur[k],
                ) && entry_facts(themes, cur[k]).is_base && cur[k].0 < t by {
                    if k < prev.len() {
                        assert(cur[k] == prev[k]);
                    }
                }
                assert forall|i: int, j: int| 0 <= i < j < cur.len() implies (#[trigger] cur[i]).0
                    < (#[trigger] cur[j]).0 by {
                    assert(cur[i] == prev[i]);
                    if j < prev.len() {
                        assert(cur[j] == prev[j]);
                    }
                }
            },
            None => {
                assert(cur == prev);
            },
        }
    }
}

proof fn lemma_matching_entries(pts: Seq<PseudoThemeFacts>, ti: usize, count: nat, k: nat)
    requires
        k <= pts.len(),
        pts.len() <= usize::MAX,
    ensures
        forall|m: int|
            0 <= m < matching_entries(pts, ti, count, k).len() ==> (#[trigger] matching_entries(
                pts,
                ti,
                count,
                k,
            )[m]).0 == ti && matching_entries(pts, ti, count, k)[m].1 < k && pts[matching_entries(
                pts,
                ti,
                count,
                k,
            )[m].1 as int].match_count == count,
        forall|p: usize|
            p < k && pts[p as int].match_count == count ==> #[trigger] matching_entries(
                pts,
                ti,
                count,
                k,
            ).contains((ti, p)),
        forall|i: int, j: int|
            0 <= i < j < matching_entries(pts, ti, count, k).len() ==> (#[trigger] matching_entries(
                pts,
                ti,
                count,
                k,
            )[i]).1 < (#[trigger] matching_entries(pts, ti, count, k)[j]).1,
    decreases k,
{
    if k > 0 {
        lemma_matching_entries(pts, ti, count, (k - 1) as nat);
        let prev = matching_entries(pts, ti, count, (k - 1) as nat);
        let cur = matching_entries(pts, ti, count, k);
        assert forall|i: int, j: int| 0 <= i < j < cur.len() implies (#[trigger] cur[i]).1 < (
        #[trigger] cur[j]).1 by {
            assert(cur[i] == prev[i]);
            if j < prev.len() {
                assert(cur[j] == prev[j]);
            } else {
                assert(prev[i].1 < k - 1);
            }
        }
        assert forall|p: usize|
            p < k && pts[p as int].match_count == count implies #[trigger] cur.contains((ti, p)) by {
            if p < k - 1 {
                assert(prev.contains((ti, p)));
                let m = choose|m: int| 0 <= m < prev.len() && prev[m] == (ti, p);
                assert(cur[m] == prev[m]);
            } else {
                assert(cur[cur.len() - 1] == (ti, p));
            }
        }
    }
}

proof fn lemma_level_entries(themes: Seq<Seq<PseudoThemeFacts>>, count: nat, t: nat)
    requires
        t <= themes.len(),
        forall|i: int| 0 <= i < themes.len() ==> themes[i].len() <= usize::MAX,
        themes.len() <= usize::MAX,
    ensures
        forall|m: int|
            0 <= m < level_entries(themes, count, t).len() ==> valid_entry(
                themes,
                #[trigger] level_entries(themes, count, t)[m],
            ) && entry_facts(themes, level_entries(themes, count, t)[m]).match_count == count,
        forall|e: (usize, usize)|
            valid_entry(themes, e) && e.0 < t && entry_facts(themes, e).match_count == count
                ==> #[trigger] level_entries(themes, count, t).contains(e),
        forall|m: int|
            0 <= m < level_entries(themes, count, t).len() ==> (#[trigger] level_entries(
                themes,
                count,
                t,
            )[m]).0 < t,
        forall|i: int, j: int|
            0 <= i < j < level_entries(themes, count, t).len() ==> declared_before(
                #[trigger] level_entries(themes, count, t)[i],
                #[trigger] level_entries(themes, count, t)[j],
            ),
    decreases t,
{
    if t > 0 {
        lemma_level_entries(themes, count, (t - 1) as nat);
        let pts = themes[t - 1];
        lemma_matching_entries(pts, (t - 1) as usize, count, pts.len());
        let prev = level_entries(themes, count, (t - 1) as nat);
        let mine = matching_entries(pts, (t - 1) as usize, count, pts.len());
        let cur = level_entries(themes, count, t);
        assert(cur == prev + mine);
        assert forall|m: int| 0 <= m < cur.len() implies (#[trigger] cur[m]).0 < t by {
            if m < prev.len() {
                assert(cur[m] == prev[m]);
            } else {
                assert(cur[m] == mine[m - prev.len()]);
            }
        }
        assert forall|i: int, j: int| 0 <= i < j < cur.len() implies declared_before(
            #[trigger] cur[i],
            #[trigger] cur[j],
        ) by {
            if j < prev.len() {
                assert(cur[i] == prev[i]);
                assert(cur[j] == prev[j]);
            } else if i < prev.len() {
                assert(cur[i] == prev[i]);
                assert(cur[j] == mine[j - prev.len()]);
            } else {
                assert(cur[i] == mine[i - prev.len()]);
                assert(cur[j] == mine[j - prev.len()]);
            }
        }
        assert forall|e: (usize, usize)|
            valid_entry(themes, e) && e.0 < t && entry_facts(themes, e).match_count == count implies #[trigger] cur.contains(
            e,
        ) by {
            if e.0 < t - 1 {
                assert(prev.contains(e));
                let m = choose|m: int| 0 <= m < prev.len() && prev[m] == e;
                assert(cur[m] == prev[m]);
            } else {
                assert(mine.contains(((t - 1) as usize, e.1)));
                let m = choose|m: int| 0 <= m < mine.len() && mine[m] == ((t - 1) as usize, e.1);
                assert(cur[prev.len() + m] == mine[m]);
            }
        }
    }
}

proof fn lemma_state_entries(themes: Seq<Seq<PseudoThemeFacts>>, n: nat)
    requires
        forall|i: int| 0 <= i < themes.len() ==> themes[i].len() <= usize::MAX,
        themes.len() <= usize::MAX,
    ensures
        forall|m: int|
            0 <= m < state_entries(themes, n).len() ==> valid_entry(
                themes,
                #[trigger] state_entries(themes, n)[m],
            ) && 1 <= entry_facts(themes, state_entries(themes, n)[m]).match_count <= n,
        forall|a: int, b: int|
            0 <= a < b < state_entries(themes, n).len() ==> entry_facts(
                themes,
                #[trigger] state_entries(themes, n)[a],
            ).match_count <= entry_facts(themes, #[trigger] state_entries(themes, n)[b]).match_count,
        forall|e: (usize, usize)|
            valid_entry(themes, e) && 1 <= entry_facts(themes, e).match_count <= n
                ==> #[trigger] state_entries(themes, n).contains(e),
        forall|a: int, b: int|
            0 <= a < b < state_entries(themes, n).len() && entry_facts(
                themes,
                #[trigger] state_entries(themes, n)[a],
            ).match_count == entry_facts(themes, #[trigger] state_entries(themes, n)[b]).match_count
                ==> declared_before(state_entries(themes, n)[a], state_entries(themes, n)[b]),
    decreases n,
{
    if n > 0 {
        lemma_state_entries(themes, (n - 1) as nat);
        lemma_level_entries(themes, n, themes.len());
        let prev = state_entries(themes, (n - 1) as nat);
        let lvl = level_entries(themes, n, themes.len());
        let cur = state_entries(themes, n);
        assert(cur == prev + lvl);
        assert forall|m: int| 0 <= m < cur.len() implies valid_entry(themes, #[trigger] cur[m])
            && 1 <= entry_facts(themes, cur[m]).match_count <= n by {
            if m < prev.len() {
                assert(cur[m] == prev[m]);
            } else {
                assert(cur[m] == lvl[m - prev.len()]);
            }
        }
        assert forall|a: int, b: int| 0 <= a < b < cur.len() implies entry_facts(
            themes,
            #[trigger] cur[a],
        ).match_count <= entry_facts(themes, #[trigger] cur[b]).match_count by {
            if b < prev.len() {
                assert(cur[a] == prev[a]);
                assert(cur[b] == prev[b]);
            } else if a < prev.len() {
                assert(cur[a] == prev[a]);
                assert(cur[b] == lvl[b - prev.len()]);
            } else {
                assert(cur[a] == lvl[a - prev.len()]);
                assert(cur[b] == lvl[b - prev.len()]);
            }
        }
        assert forall|a: int, b: int|
            0 <= a < b < cur.len() && entry_facts(themes, #[trigger] cur[a]).match_count
                == entry_facts(themes, #[trigger] cur[b]).match_count implies declared_before(
            cur[a],
            cur[b],
        ) by {
            if b < prev.len() {
                assert(cur[a] == prev[a]);
                assert(cur[b] == prev[b]);
            } else if a < prev.len() {
                assert(cur[a] == prev[a]);
                assert(cur[b] == lvl[b - prev.len()]);
            } else {
                assert(cur[a] == lvl[a - prev.len()]);
                assert(cur[b] == lvl[b - prev.len()]);
            }
        }
        assert forall|e: (usize, usize)|
            valid_entry(themes, e) && 1 <= entry_facts(themes, e).match_count <= n implies #[trigger] cur.contains(
            e,
        ) by {
            if entry_facts(themes, e).match_count < n {
                assert(prev.contains(e));
                let m = choose|m: int| 0 <= m < prev.len() && prev[m] == e;
                assert(cur[m] == prev[m]);
            } else {
                assert(lvl.contains(e));
                let m = choose|m: int| 0 <= m < lvl.len() && lvl[m] == e;
                assert(cur[prev.len() + m] == lvl[m]);
            }
        }
    }
}

/// The merge order of pseudo themes: first the base pseudo themes, at most
/// one per theme and in the order of the themes; then the pseudo themes that
/// match some of the entity's pseudo states, from those matching the fewest
/// states to those matching the most, so that more specific pseudo themes
/// are merged last. Every pseudo theme that matches between one and all of
/// the entity's states is merged; no other is, but for the base ones.
/// Equally specific pseudo themes are merged in declaration order (theme by
/// theme, and within a theme in the order they were declared), so that the
/// later declared one wins.
pub proof fn lemma_selection_order(themes: Seq<Seq<PseudoThemeFacts>>, state_count: nat)
    requires
        forall|i: int| 0 <= i < themes.len() ==> themes[i].len() <= usize::MAX,
        themes.len() <= usize::MAX,
    ensures
        ({
            let sel = selection(themes, state_count);
            let nb = base_entries(themes, themes.len()).len();
            &&& nb <= sel.len()
            &&& forall|k: int|
                0 <= k < sel.len() ==> #[trigger] valid_entry(themes, sel[k])
            &&& forall|k: int| 0 <= k < nb ==> #[trigger] entry_facts(themes, sel[k]).is_base
            &&& forall|i: int, j: int| 0 <= i < j < nb ==> (#[trigger] sel[i]).0 < (#[trigger] sel[j]).0
            &&& forall|k: int|
                nb <= k < sel.len() ==> 1 <= #[trigger] entry_facts(themes, sel[k]).match_count
                    <= state_count
            &&& forall|i: int, j: int|
                nb <= i < j < sel.len() ==> entry_facts(themes, #[trigger] sel[i]).match_count
                    <= entry_facts(themes, #[trigger] sel[j]).match_count
            &&& forall|e: (usize, usize)|
                valid_entry(themes, e) && 1 <= entry_facts(themes, e).match_count <= state_count
                    ==> #[trigger] sel.contains(e)
            &&& forall|i: int, j: int|
                nb <= i < j < sel.len() && entry_facts(themes, #[trigger] sel[i]).match_count
                    == entry_facts(themes, #[trigger] sel[j]).match_count ==> declared_before(
                    sel[i],
                    sel[j],
                )
        }),
{
    let sel = selection(themes, state_count);
    let base = base_entries(themes, themes.len());
    let st = state_entries(themes, state_count);
    lemma_base_entries(themes, themes.len());
    lemma_state_entries(themes, state_count);
    assert(sel == base + st);
    let nb = base.len();
    assert forall|k: int| 0 <= k < sel.len() implies #[trigger] valid_entry(themes, sel[k]) by {
        if k < nb {
            assert(sel[k] == base[k]);
        } else {
            assert(sel[k] == st[k - nb]);
        }
    }
    assert forall|k: int| 0 <= k < nb implies #[trigger] entry_facts(themes, sel[k]).is_base by {
        assert(sel[k] == base[k]);
    }
    assert forall|i: int, j: int| 0 <= i < j < nb implies (#[trigger] sel[i]).0 < (
    #[trigger] sel[j]).0 by {
        assert(sel[i] == base[i]);
        assert(sel[j] == base[j]);
    }
    assert forall|k: int| nb <= k < sel.len() implies 1 <= #[trigger] entry_facts(
        themes,
        sel[k],
    ).match_count <= state_count by {
        assert(sel[k] == st[k - nb]);
    }
    assert forall|i: int, j: int| nb <= i < j < sel.len() implies entry_facts(
        themes,
        #[trigger] sel[i],
    ).match_count <= entry_facts(themes, #[trigger] sel[j]).match_count by {
        assert(sel[i] == st[i - nb]);
        assert(sel[j] == st[j - nb]);
    }
    assert forall|i: int, j: int|
        nb <= i < j < sel.len() && entry_facts(themes, #[trigger] sel[i]).match_count
            == entry_facts(themes, #[trigger] sel[j]).match_count implies declared_before(
        sel[i],
        sel[j],
    ) by {
        assert(sel[i] == st[i - nb]);
        assert(sel[j] == st[j - nb]);
    }
    assert forall|e: (usize, usize)|
        valid_entry(themes, e) && 1 <= entry_facts(themes, e).match_count
            <= state_count implies #[trigger] sel.contains(e) by {
        assert(st.contains(e));
        let m = choose|m: int| 0 <= m < st.len() && st[m] == e;
        assert(sel[nb + m] == st[m]);
    }
}

/// A refresh that selects no pseudo theme removes the entity's style; one
/// that selects some inserts the merged style, and adds interaction
/// components only for an interactive or animated style, and only those the
/// entity lacks.
pub proof fn lemma_style_update(
    has_style: bool,
    interactive: bool,
    animated: bool,
    has_interaction: bool,
    has_flux_interaction: bool,
)
    ensures
        !has_style <==> spec_style_update(
            has_style,
            interactive,
            animated,
            has_interaction,
            has_flux_interaction,
        ) == StyleUpdate::RemoveStyle,
        spec_style_update(has_style, interactive, animated, has_interaction, has_flux_interaction) matches StyleUpdate::InsertStyle { insert_interaction, insert_tracked_interaction } ==> {
            &&& insert_interaction == ((interactive || animated) && !has_interaction)
            &&& insert_tracked_interaction == ((interactive || animated) && !has_flux_interaction)
        },
{
}

/// Each interaction component is added on its own account: whether the
/// tracked interaction is added does not depend on whether the entity has an
/// `Interaction`, and whether the `Interaction` is added does not depend on
/// whether it has a flux interaction.
pub proof fn lemma_style_update_independent(
    has_style: bool,
    interactive: bool,
    animated: bool,
    has_interaction_a: bool,
    has_interaction_b: bool,
    has_flux_a: bool,
    has_flux_b: bool,
)
    ensures
        spec_style_update(has_style, interactive, animated, has_interaction_a, has_flux_a) matches StyleUpdate::InsertStyle { insert_interaction: ia, insert_tracked_interaction: ta } ==> spec_style_update(has_style, interactive, animated, has_interaction_b, has_flux_a) matches StyleUpdate::InsertStyle { insert_interaction: ib, insert_tracked_interaction: tb } ==> ta == tb,
        spec_style_update(has_style, interactive, animated, has_interaction_a, has_flux_a) matches StyleUpdate::InsertStyle { insert_interaction: ia, insert_tracked_interaction: ta } ==> spec_style_update(has_style, interactive, animated, has_interaction_a, has_flux_b) matches StyleUpdate::InsertStyle { insert_interaction: ib, insert_tracked_interaction: tb } ==> ia == ib,
{
}

proof fn lemma_base_entries_complete(themes: Seq<Seq<PseudoThemeFacts>>, t: nat, ti: int, p: usize)
    requires
        0 <= ti < t <= themes.len(),
        themes.len() <= usize::MAX,
        first_base_from(themes[ti], 0) == Some(p),
    ensures
        base_entries(themes, t).contains((ti as usize, p)),
    decreases t,
{
    let prev = base_entries(themes, (t - 1) as nat);
    let cur = base_entries(themes, t);
    if ti < t - 1 {
        lemma_base_entries_complete(themes, (t - 1) as nat, ti, p);
        let m = choose|m: int| 0 <= m < prev.len() && prev[m] == (ti as usize, p);
        match first_base_from(themes[t - 1], 0) {
            Some(q) => {
                assert(cur == prev.push(((t - 1) as usize, q)));
                assert(cur[m] == prev[m]);
            },
            None => {
                assert(cur == prev);
            },
        }
    } else {
        assert(cur == prev.push((ti as usize, p)));
        assert(cur[prev.len() as int] == (ti as usize, p));
    }
}

proof fn lemma_first_base_is(pts: Seq<PseudoThemeFacts>, from: int, p: int)
    requires
        0 <= from <= p < pts.len(),
        pts.len() <= usize::MAX,
        pts[p].is_base,
        forall|q: int| from <= q < p ==> !pts[q].is_base,
    ensures
        first_base_from(pts, from) == Some(p as usize),
    decreases p - from,
{
    if from < p {
        lemma_first_base_is(pts, from + 1, p);
    }
}

/// The pseudo-theme facts of the own, ancestor and default themes all have
/// lengths that fit in `usize`, as those of vectors do, and so does the
/// number of themes that can apply.
pub open spec fn facts_fit(
    own: Option<Seq<PseudoThemeFacts>>,
    ancestors: Seq<Option<Seq<PseudoThemeFacts>>>,
    default: Option<Seq<PseudoThemeFacts>>,
) -> bool {
    &&& ancestors.len() + 2 <= usize::MAX
    &&& (own is Some ==> own.unwrap().len() <= usize::MAX)
    &&& (default is Some ==> default.unwrap().len() <= usize::MAX)
    &&& forall|i: int|
        0 <= i < ancestors.len() && #[trigger] ancestors[i] is Some ==> ancestors[i].unwrap().len()
            <= usize::MAX
}

/// Every ancestor that carries a theme takes part in the refresh: its first
/// base pseudo theme is merged, whatever the other themes.
pub proof fn lemma_plan_uses_every_themed_ancestor(
    own: Option<Seq<PseudoThemeFacts>>,
    ancestors: Seq<Option<Seq<PseudoThemeFacts>>>,
    default: Option<Seq<PseudoThemeFacts>>,
    state_count: nat,
    x: usize,
    p: int,
)
    requires
        facts_fit(own, ancestors, default),
        x < ancestors.len(),
        ancestors[x as int] is Some,
        0 <= p < ancestors[x as int].unwrap().len(),
        ancestors[x as int].unwrap()[p].is_base,
        forall|q: int| 0 <= q < p ==> !ancestors[x as int].unwrap()[q].is_base,
    ensures
        refresh_selection(own, ancestors, default, state_count) is Some,
        refresh_selection(own, ancestors, default, state_count).unwrap().contains(
            (ThemeSource::Ancestor(x), p as usize),
        ),
{
    let flags = present(ancestors);
    let order = application_order(own is Some, flags, default is Some);
    lemma_application_order(own is Some, flags, default is Some);
    assert(flags[x as int]);
    assert(order.contains(ThemeSource::Ancestor(x)));
    let t = choose|t: int| 0 <= t < order.len() && order[t] == ThemeSource::Ancestor(x);
    let themes = themes_in_order(order, own, ancestors, default);
    assert(themes[t] == ancestors[x as int].unwrap());
    lemma_first_base_is(themes[t], 0, p);
    assert(order.len() <= usize::MAX) by {
        lemma_order_len(own is Some, flags, default is Some);
    }
    lemma_base_entries_complete(themes, themes.len(), t, p as usize);
    let base = base_entries(themes, themes.len());
    let sel = selection(themes, state_count);
    let m = choose|m: int| 0 <= m < base.len() && base[m] == (t as usize, p as usize);
    assert(sel[m] == base[m]);
    let mapped = sel.map_values(|e: (usize, usize)| (order[e.0 as int], e.1));
    assert(mapped[m] == (ThemeSource::Ancestor(x), p as usize));
    assert(refresh_selection(own, ancestors, default, state_count) == Some(mapped));
}

proof fn lemma_ancestor_sources_len(ancestors: Seq<bool>, k: nat)
    ensures
        ancestor_sources(ancestors, k).len() <= k,
    decreases k,
{
    if k > 0 && k <= ancestors.len() {
        lemma_ancestor_sources_len(ancestors, (k - 1) as nat);
    }
}

proof fn lemma_order_len(own: bool, ancestors: Seq<bool>, default: bool)
    ensures
        application_order(own, ancestors, default).len() <= ancestors.len() + 2,
{
    lemma_ancestor_sources_len(ancestors, ancestors.len());
    let look = lookup_order(own, ancestors, default);
    assert(application_order(own, ancestors, default).len() == look.len());
}

/// Every pseudo theme merged by a refresh comes from a theme the entity
/// really has: the own theme only if it exists, an ancestor's only if that
/// ancestor carries a theme, the default only if there is one.
pub proof fn lemma_plan_sources_exist(
    own: Option<Seq<PseudoThemeFacts>>,
    ancestors: Seq<Option<Seq<PseudoThemeFacts>>>,
    default: Option<Seq<PseudoThemeFacts>>,
    state_count: nat,
    k: int,
)
    requires
        facts_fit(own, ancestors, default),
        refresh_selection(own, ancestors, default, state_count) is Some,
        0 <= k < refresh_selection(own, ancestors, default, state_count).unwrap().len(),
    ensures
        ({
            let e = refresh_selection(own, ancestors, default, state_count).unwrap()[k];
            &&& e.0 == ThemeSource::Own ==> own is Some
            &&& e.0 == ThemeSource::Default ==> default is Some
            &&& forall|x: usize|
                e.0 == ThemeSource::Ancestor(x) ==> x < ancestors.len() && ancestors[x as int] is Some
        }),
{
    let flags = present(ancestors);
    let order = application_order(own is Some, flags, default is Some);
    lemma_application_order(own is Some, flags, default is Some);
    let themes = themes_in_order(order, own, ancestors, default);
    assert forall|i: int| 0 <= i < themes.len() implies themes[i].len() <= usize::MAX by {
        let src = order[i];
        match src {
            ThemeSource::Own => {},
            ThemeSource::Default => {},
            ThemeSource::Ancestor(y) => {
                assert(order.contains(ThemeSource::Ancestor(y)));
                assert(flags[y as int]);
            },
        }
    }
    assert(order.len() <= usize::MAX) by {
        lemma_order_len(own is Some, flags, default is Some);
    }
    lemma_selection_order(themes, state_count);
    let sel = selection(themes, state_count);
    assert(valid_entry(themes, sel[k]));
    let e = refresh_selection(own, ancestors, default, state_count).unwrap()[k];
    assert(e.0 == order[sel[k].0 as int]);
    let src = order[sel[k].0 as int];
    if let ThemeSource::Ancestor(y) = src {
        assert(order.contains(ThemeSource::Ancestor(y)));
    }
}

} // verus!
