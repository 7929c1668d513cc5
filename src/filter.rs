use vstd::prelude::*;
use crate::level::{Level, LevelFilter, rank, filter_rank};

verus! {

#[verifier::external_type_specification]
#[verifier::external_body]
pub struct ExBuilder(env_logger::Builder);

#[verifier::external_type_specification]
#[verifier::external_body]
pub struct ExLogger(env_logger::Logger);

/// A filter directive: an optional module-path scope (`None` for all
/// modules) and the rank of the most verbose level it admits.
pub open spec fn directive(name: Option<Seq<char>>, max_rank: nat) -> (Option<Seq<char>>, nat) {
    (name, max_rank)
}

/// The directives a logger builder holds, in the order they were added.
pub uninterp spec fn builder_directives(b: env_logger::Builder) -> Seq<(Option<Seq<char>>, nat)>;

/// Whether a logger builder has already been turned into a logger.
pub uninterp spec fn builder_consumed(b: env_logger::Builder) -> bool;

/// The directives a built logger decides by, in the order it holds them.
pub uninterp spec fn logger_directives(l: env_logger::Logger) -> Seq<(Option<Seq<char>>, nat)>;

/// Index of the first directive whose scope is `name`.
pub open spec fn position_of(
    dirs: Seq<(Option<Seq<char>>, nat)>,
    name: Option<Seq<char>>,
) -> Option<int>
    decreases dirs.len(),
{
    if dirs.len() == 0 {
        None
    } else {
        match position_of(dirs.drop_last(), name) {
            Some(i) => Some(i),
            None => if dirs.last().0 == name {
                Some(dirs.len() - 1)
            } else {
                None
            },
        }
    }
}

/// Adds directive `d`, replacing the first one with the same scope.
pub open spec fn insert_directive(
    dirs: Seq<(Option<Seq<char>>, nat)>,
    d: (Option<Seq<char>>, nat),
) -> Seq<(Option<Seq<char>>, nat)> {
    match position_of(dirs, d.0) {
        Some(i) => dirs.update(i, d),
        None => dirs.push(d),
    }
}

proof fn lemma_position_in_range(dirs: Seq<(Option<Seq<char>>, nat)>, name: Option<Seq<char>>)
    ensures
        position_of(dirs, name) matches Some(i) ==> 0 <= i < dirs.len(),
    decreases dirs.len(),
{
    if dirs.len() > 0 {
        lemma_position_in_range(dirs.drop_last(), name);
    }
}

/// A scope covers a target when it is absent or a prefix of the target.
pub open spec fn scope_covers(name: Option<Seq<char>>, target: Seq<char>) -> bool {
    match name {
        None => true,
        Some(n) => n.len() <= target.len() && target.subrange(0, n.len() as int) == n,
    }
}

pub open spec fn scope_len(name: Option<Seq<char>>) -> nat {
    match name {
        None => 0,
        Some(n) => n.len(),
    }
}

/// The directive that decides for `target`: among those whose scope covers
/// it, the longest scope, and the later one of two equally long.
pub open spec fn deciding_directive(
    dirs: Seq<(Option<Seq<char>>, nat)>,
    target: Seq<char>,
) -> Option<(Option<Seq<char>>, nat)>
    decreases dirs.len(),
{
    if dirs.len() == 0 {
        None
    } else {
        let prev = deciding_directive(dirs.drop_last(), target);
        let d = dirs.last();
        if scope_covers(d.0, target) && (prev matches Some(p) ==> scope_len(p.0) <= scope_len(d.0)) {
            Some(d)
        } else {
            prev
        }
    }
}

/// Whether a record of verbosity `level_rank` for `target` passes `dirs`;
/// with no covering directive it does not.
pub open spec fn directives_admit(
    dirs: Seq<(Option<Seq<char>>, nat)>,
    target: Seq<char>,
    level_rank: nat,
) -> bool {
    match deciding_directive(dirs, target) {
        None => false,
        Some(d) => level_rank <= d.1,
    }
}

/// Number of bytes in the UTF-8 encoding of `c`.
pub open spec fn utf8_len(c: char) -> nat {
    if (c as u32) < 0x80 {
        1
    } else if (c as u32) < 0x800 {
        2
    } else if (c as u32) < 0x10000 {
        3
    } else {
        4
    }
}

/// Number of bytes in the UTF-8 encoding of `s`.
pub open spec fn utf8_byte_len(s: Seq<char>) -> nat
    decreases s.len(),
{
    if s.len() == 0 {
        0
    } else {
        utf8_byte_len(s.drop_last()) + utf8_len(s.last())
    }
}

/// Byte length of a scope; an absent scope counts as empty.
pub open spec fn scope_byte_len(name: Option<Seq<char>>) -> nat {
    match name {
        None => 0,
        Some(n) => utf8_byte_len(n),
    }
}

/// `sorted` is `dirs` reordered by `perm` (entry `k` of `sorted` is entry
/// `perm[k]` of `dirs`), in ascending scope byte length, with equally long
/// scopes kept in their order in `dirs`.
pub open spec fn is_stable_sort_perm(
    sorted: Seq<(Option<Seq<char>>, nat)>,
    dirs: Seq<(Option<Seq<char>>, nat)>,
    perm: Seq<int>,
) -> bool {
    &&& sorted.len() == dirs.len()
    &&& perm.len() == dirs.len()
    &&& forall|k: int|
        0 <= k < perm.len() ==> 0 <= #[trigger] perm[k] < dirs.len() && sorted[k] == dirs[perm[k]]
    &&& forall|i: int| 0 <= i < dirs.len() ==> #[trigger] perm.contains(i)
    &&& forall|k: int, l: int|
        #![trigger perm[k], perm[l]]
        0 <= k < l < perm.len() ==> scope_byte_len(sorted[k].0) < scope_byte_len(sorted[l].0) || (
        scope_byte_len(sorted[k].0) == scope_byte_len(sorted[l].0) && perm[k] < perm[l])
}

/// `sorted` is the stable sort of `dirs` by scope byte length.
pub open spec fn stable_sorted_by_scope_len(
    sorted: Seq<(Option<Seq<char>>, nat)>,
    dirs: Seq<(Option<Seq<char>>, nat)>,
) -> bool {
    exists|perm: Seq<int>| is_stable_sort_perm(sorted, dirs, perm)
}

/// The first directive whose scope covers `target`, scanning from the end.
pub open spec fn last_covering(
    dirs: Seq<(Option<Seq<char>>, nat)>,
    target: Seq<char>,
) -> Option<(Option<Seq<char>>, nat)>
    decreases dirs.len(),
{
    if dirs.len() == 0 {
        None
    } else if scope_covers(dirs.last().0, target) {
        Some(dirs.last())
    } else {
        last_covering(dirs.drop_last(), target)
    }
}

/// Whether the last covering directive admits verbosity `level_rank`; with
/// none covering, nothing is admitted.
pub open spec fn scan_admits(
    dirs: Seq<(Option<Seq<char>>, nat)>,
    target: Seq<char>,
    level_rank: nat,
) -> bool {
    match last_covering(dirs, target) {
        None => false,
        Some(d) => level_rank <= d.1,
    }
}

proof fn lemma_last_covering(dirs: Seq<(Option<Seq<char>>, nat)>, target: Seq<char>)
    ensures
        match last_covering(dirs, target) {
            None => forall|i: int| 0 <= i < dirs.len() ==> !scope_covers(#[trigger] dirs[i].0, target),
            Some(d) => exists|k: int|
                0 <= k < dirs.len() && dirs[k] == d && scope_covers(dirs[k].0, target) && forall|l: int|
                    k < l < dirs.len() ==> !scope_covers(#[trigger] dirs[l].0, target),
        },
    decreases dirs.len(),
{
    if dirs.len() > 0 {
        let init = dirs.drop_last();
        lemma_last_covering(init, target);
        if scope_covers(dirs.last().0, target) {
            assert(dirs[dirs.len() - 1] == dirs.last());
        } else {
            match last_covering(init, target) {
                None => {
                    assert forall|i: int| 0 <= i < dirs.len() implies !scope_covers(
                        #[trigger] dirs[i].0,
                        target,
                    ) by {
                        if i < dirs.len() - 1 {
                            assert(dirs[i] == init[i]);
                        }
                    }
                },
                Some(d) => {
                    let k = choose|k: int|
                        0 <= k < init.len() && init[k] == d && scope_covers(init[k].0, target)
                            && forall|l: int|
                            k < l < init.len() ==> !scope_covers(#[trigger] init[l].0, target);
                    assert(dirs[k] == init[k]);
                    assert forall|l: int| k < l < dirs.len() implies !scope_covers(
                        #[trigger] dirs[l].0,
                        target,
                    ) by {
                        if l < dirs.len() - 1 {
                            assert(dirs[l] == init[l]);
                        }
                    }
                },
            }
        }
    }
}

proof fn lemma_deciding_directive(dirs: Seq<(Option<Seq<char>>, nat)>, target: Seq<char>)
    ensures
        match deciding_directive(dirs, target) {
            None => forall|i: int| 0 <= i < dirs.len() ==> !scope_covers(#[trigger] dirs[i].0, target),
            Some(d) => exists|j: int|
                0 <= j < dirs.len() && dirs[j] == d && scope_covers(dirs[j].0, target) && forall|i: int|
                    0 <= i < dirs.len() && scope_covers(#[trigger] dirs[i].0, target) ==> scope_len(
                        dirs[i].0,
                    ) < scope_len(d.0) || (scope_len(dirs[i].0) == scope_len(d.0) && i <= j),
        },
    decreases dirs.len(),
{
    if dirs.len() > 0 {
        let init = dirs.drop_last();
        let n = dirs.len() - 1;
        lemma_deciding_directive(init, target);
        let prev = deciding_directive(init, target);
        let d = dirs.last();
        assert(dirs[n] == d);
        assert forall|i: int| 0 <= i < n implies dirs[i] == init[i] by {}
        if scope_covers(d.0, target) && (prev matches Some(p) ==> scope_len(p.0) <= scope_len(d.0)) {
            match prev {
                None => {},
                Some(p) => {
                    let j = choose|j: int|
                        0 <= j < init.len() && init[j] == p && scope_covers(init[j].0, target)
                            && forall|i: int|
                            0 <= i < init.len() && scope_covers(#[trigger] init[i].0, target)
                                ==> scope_len(init[i].0) < scope_len(p.0) || (scope_len(init[i].0)
                                == scope_len(p.0) && i <= j);
                    assert forall|i: int|
                        0 <= i < dirs.len() && scope_covers(
                            #[trigger] dirs[i].0,
                            target,
                        ) implies scope_len(dirs[i].0) < scope_len(d.0) || (scope_len(dirs[i].0)
                        == scope_len(d.0) && i <= n) by {
                        if i < n {
                            assert(init[i] == dirs[i]);
                        }
                    }
                },
            }
        } else {
            match prev {
                None => {
                    assert forall|i: int| 0 <= i < dirs.len() implies !scope_covers(
                        #[trigger] dirs[i].0,
                        target,
                    ) by {
                        if i < n {
                            assert(init[i] == dirs[i]);
                        }
                    }
                },
                Some(p) => {
                    let j = choose|j: int|
                        0 <= j < init.len() && init[j] == p && scope_covers(init[j].0, target)
                            && forall|i: int|
                            0 <= i < init.len() && scope_covers(#[trigger] init[i].0, target)
                                ==> scope_len(init[i].0) < scope_len(p.0) || (scope_len(init[i].0)
                                == scope_len(p.0) && i <= j);
                    assert(dirs[j] == init[j]);
                    assert forall|i: int|
                        0 <= i < dirs.len() && scope_covers(
                            #[trigger] dirs[i].0,
                            target,
                        ) implies scope_len(dirs[i].0) < scope_len(p.0) || (scope_len(dirs[i].0)
                        == scope_len(p.0) && i <= j) by {
                        if i < n {
                            assert(init[i] == dirs[i]);
                        }
                    }
                },
            }
        }
    }
}

proof fn lemma_prefix_bytes_increase(t: Seq<char>, a: int, b: int)
    requires
        0 <= a < b <= t.len(),
    ensures
        utf8_byte_len(t.subrange(0, a)) < utf8_byte_len(t.subrange(0, b)),
    decreases b,
{
    assert(t.subrange(0, b).drop_last() =~= t.subrange(0, b - 1));
    if a < b - 1 {
        lemma_prefix_bytes_increase(t, a, b - 1);
    }
}

/// For a scope covering `target`, its byte length is that of the prefix of
/// `target` it spans.
proof fn lemma_covering_bytes(name: Option<Seq<char>>, target: Seq<char>)
    requires
        scope_covers(name, target),
    ensures
        scope_byte_len(name) == utf8_byte_len(target.subrange(0, scope_len(name) as int)),
        scope_len(name) <= target.len(),
{
    if name is None {
        assert(target.subrange(0, 0) =~= Seq::<char>::empty());
    }
}

/// Two scopes covering the same target are ordered alike by byte length
/// and by character length.
proof fn lemma_covering_order(a: Option<Seq<char>>, b: Option<Seq<char>>, target: Seq<char>)
    requires
        scope_covers(a, target),
        scope_covers(b, target),
    ensures
        (scope_byte_len(a) < scope_byte_len(b)) == (scope_len(a) < scope_len(b)),
        (scope_byte_len(a) == scope_byte_len(b)) == (scope_len(a) == scope_len(b)),
{
    lemma_covering_bytes(a, target);
    lemma_covering_bytes(b, target);
    let la = scope_len(a) as int;
    let lb = scope_len(b) as int;
    if la < lb {
        lemma_prefix_bytes_increase(target, la, lb);
    } else if lb < la {
        lemma_prefix_bytes_increase(target, lb, la);
    }
}

/// Scanning a stable sort of `dirs` by scope byte length from the end, the
/// first covering directive is the one `deciding_directive` picks from
/// `dirs`: both admit exactly the same records.
pub proof fn lemma_sorted_scan_decides(
    sorted: Seq<(Option<Seq<char>>, nat)>,
    dirs: Seq<(Option<Seq<char>>, nat)>,
    target: Seq<char>,
    level_rank: nat,
)
    requires
        stable_sorted_by_scope_len(sorted, dirs),
    ensures
        scan_admits(sorted, target, level_rank) == directives_admit(dirs, target, level_rank),
{
    let perm = choose|perm: Seq<int>| is_stable_sort_perm(sorted, dirs, perm);
    lemma_last_covering(sorted, target);
    lemma_deciding_directive(dirs, target);
    match last_covering(sorted, target) {
        None => {
            match deciding_directive(dirs, target) {
                None => {},
                Some(e) => {
                    let j = choose|j: int|
                        0 <= j < dirs.len() && dirs[j] == e && scope_covers(dirs[j].0, target)
                            && forall|i: int|
                            0 <= i < dirs.len() && scope_covers(#[trigger] dirs[i].0, target)
                                ==> scope_len(dirs[i].0) < scope_len(e.0) || (scope_len(dirs[i].0)
                                == scope_len(e.0) && i <= j);
                    assert(perm.contains(j));
                    let l = choose|l: int| 0 <= l < perm.len() && perm[l] == j;
                    assert(sorted[l] == dirs[j]);
                    assert(false);
                },
            }
        },
        Some(d) => {
            let k = choose|k: int|
                0 <= k < sorted.len() && sorted[k] == d && scope_covers(sorted[k].0, target)
                    && forall|l: int| k < l < sorted.len() ==> !scope_covers(#[trigger] sorted[l].0, target);
            let j0 = perm[k];
            assert(dirs[j0] == d);
            match deciding_directive(dirs, target) {
                None => {
                    assert(!scope_covers(dirs[j0].0, target));
                },
                Some(e) => {
                    let j = choose|j: int|
                        0 <= j < dirs.len() && dirs[j] == e && scope_covers(dirs[j].0, target)
                            && forall|i: int|
                            0 <= i < dirs.len() && scope_covers(#[trigger] dirs[i].0, target)
                                ==> scope_len(dirs[i].0) < scope_len(e.0) || (scope_len(dirs[i].0)
                                == scope_len(e.0) && i <= j);
                    assert(perm.contains(j));
                    let l = choose|l: int| 0 <= l < perm.len() && perm[l] == j;
                    assert(sorted[l] == dirs[j]);
                    assert(scope_covers(dirs[j0].0, target));
                    lemma_covering_order(dirs[j].0, dirs[j0].0, target);
                    if l < k {
                        assert(perm[l] == j && perm[k] == j0);
                        assert(false);
                    }
                    assert(l == k);
                },
            }
        },
    }
}

/// A filter rule: records of `target`'s scope (every scope when `None`)
/// pass when no more verbose than `level`.
pub struct FilterRule {
    pub target: Option<String>,
    pub level: LevelFilter,
}

pub open spec fn target_view(t: Option<String>) -> Option<Seq<char>> {
    match t {
        None => None,
        Some(t) => Some(t@),
    }
}

pub open spec fn rule_directive(r: FilterRule) -> (Option<Seq<char>>, nat) {
    directive(target_view(r.target), filter_rank(r.level))
}

/// Directives from the rules added in order, a later rule for the same
/// scope replacing the earlier one.
pub open spec fn rules_directives(rules: Seq<FilterRule>) -> Seq<(Option<Seq<char>>, nat)>
    decreases rules.len(),
{
    if rules.len() == 0 {
        Seq::empty()
    } else {
        insert_directive(rules_directives(rules.drop_last()), rule_directive(rules.last()))
    }
}

/// The directives installed for `rules`: those of the rules, or, when none
/// are given, a single one admitting every level everywhere.
pub open spec fn applied_directives(rules: Seq<FilterRule>) -> Seq<(Option<Seq<char>>, nat)> {
    if rules.len() == 0 {
        seq![directive(None, 5)]
    } else {
        rules_directives(rules)
    }
}

proof fn lemma_insert_nonempty(dirs: Seq<(Option<Seq<char>>, nat)>, d: (Option<Seq<char>>, nat))
    ensures
        insert_directive(dirs, d).len() >= 1,
        dirs.len() == 0 ==> insert_directive(dirs, d) == seq![d],
{
    lemma_position_in_range(dirs, d.0);
    if dirs.len() == 0 {
        assert(Seq::<(Option<Seq<char>>, nat)>::empty().push(d) =~= seq![d]);
    }
}

/// A logger builder holding the filter directives for `rules`.
pub fn configure(rules: &Vec<FilterRule>) -> (b: env_logger::Builder)
    ensures
        builder_directives(b) == applied_directives(rules@),
        !builder_consumed(b),
{
    let mut b = new_builder();
    if rules.len() == 0 {
        add_directive(&mut b, None, LevelFilter::Trace);
        proof {
            lemma_insert_nonempty(Seq::empty(), directive(None, 5));
        }
        return b;
    }
    let mut i: usize = 0;
    while i < rules.len()
        invariant
            i <= rules@.len(),
            builder_directives(b) == rules_directives(rules@.subrange(0, i as int)),
            !builder_consumed(b),
        decreases rules@.len() - i,
    {
        let rule = &rules[i];
        let module = match &rule.target {
            None => None,
            Some(t) => Some(t.as_str()),
        };
        add_directive(&mut b, module, rule.level);
        assert(rules@.subrange(0, i + 1).drop_last() =~= rules@.subrange(0, i as int));
        i = i + 1;
    }
    assert(rules@.subrange(0, i as int) =~= rules@);
    b
}

/// Whether a record of `level` for `target` passes the filter that
/// `rules` configure.
pub fn admits(rules: &Vec<FilterRule>, target: &str, level: Level) -> (r: bool)
    ensures
        r == directives_admit(applied_directives(rules@), target@, rank(level)),
{
    let mut b = configure(rules);
    proof {
        if rules@.len() > 0 {
            lemma_insert_nonempty(
                rules_directives(rules@.drop_last()),
                rule_directive(rules@.last()),
            );
        }
    }
    let logger = build_logger(&mut b);
    proof {
        lemma_sorted_scan_decides(
            logger_directives(logger),
            applied_directives(rules@),
            target@,
            rank(level),
        );
    }
    logger_enabled(&logger, target, level)
}

/// With a global default followed by a rule for one scope, the scoped rule
/// decides for every target inside its scope, and the default for every
/// target outside it.
pub proof fn lemma_scoped_rule_overrides_default(
    global: FilterRule,
    scoped: FilterRule,
    target: Seq<char>,
    level: Level,
)
    requires
        global.target is None,
        scoped.target is Some,
    ensures
        directives_admit(applied_directives(seq![global, scoped]), target, rank(level)) == if scope_covers(
            target_view(scoped.target),
            target,
        ) {
            rank(level) <= filter_rank(scoped.level)
        } else {
            rank(level) <= filter_rank(global.level)
        },
{
    let rules = seq![global, scoped];
    let g = rule_directive(global);
    let d = rule_directive(scoped);
    assert(rules.drop_last() =~= seq![global]);
    assert(seq![global].drop_last() =~= Seq::<FilterRule>::empty());
    lemma_insert_nonempty(Seq::empty(), g);
    let first = seq![g];
    assert(rules_directives(Seq::<FilterRule>::empty()) == Seq::<(Option<Seq<char>>, nat)>::empty());
    assert(seq![global].last() == global);
    assert(rules_directives(seq![global]) == first);
    assert(first.drop_last() =~= Seq::<(Option<Seq<char>>, nat)>::empty());
    assert(position_of(Seq::<(Option<Seq<char>>, nat)>::empty(), d.0) is None);
    assert(d.0 is Some);
    assert(first.last().0 is None);
    assert(position_of(first, d.0) is None);
    let dirs = first.push(d);
    assert(rules_directives(rules) == dirs);
    assert(dirs.drop_last() =~= first);
    assert(deciding_directive(Seq::<(Option<Seq<char>>, nat)>::empty(), target) is None);
    assert(first.last() == g);
    assert(scope_covers(g.0, target));
    assert(deciding_directive(first, target) == Some(g));
}

/// Relies on env_logger::Builder::new: a fresh builder with no directives.
#[verifier::external_body]
fn new_builder() -> (b: env_logger::Builder)
    ensures
        builder_directives(b) == Seq::<(Option<Seq<char>>, nat)>::empty(),
        !builder_consumed(b),
{
    env_logger::Builder::new()
}

/// Relies on env_logger::Builder::filter: adds a directive for `module`
/// (all modules when `None`), replacing one of the same scope.
#[verifier::external_body]
fn add_directive(b: &mut env_logger::Builder, module: Option<&str>, level: LevelFilter)
    ensures
        builder_directives(*final(b)) == insert_directive(
            builder_directives(*old(b)),
            directive(
                match module {
                    None => None,
                    Some(m) => Some(m@),
                },
                filter_rank(level),
            ),
        ),
        builder_consumed(*final(b)) == builder_consumed(*old(b)),
{
    let level = match level {
        LevelFilter::Off => log::LevelFilter::Off,
        LevelFilter::Error => log::LevelFilter::Error,
        LevelFilter::Warn => log::LevelFilter::Warn,
        LevelFilter::Info => log::LevelFilter::Info,
        LevelFilter::Debug => log::LevelFilter::Debug,
        LevelFilter::Trace => log::LevelFilter::Trace,
    };
    b.filter(module, level);
}

/// Relies on env_logger::Builder::build: a builder without directives gets
/// one admitting `Error` everywhere; otherwise its directives are sorted
/// stably by the byte length of their scope. It panics on a consumed builder.
#[verifier::external_body]
fn build_logger(b: &mut env_logger::Builder) -> (l: env_logger::Logger)
    requires
        !builder_consumed(*old(b)),
    ensures
        builder_directives(*old(b)).len() == 0 ==> logger_directives(l) == seq![directive(None, 1)],
        builder_directives(*old(b)).len() > 0 ==> stable_sorted_by_scope_len(
            logger_directives(l),
            builder_directives(*old(b)),
        ),
        builder_consumed(*final(b)),
{
    b.build()
}

/// Relies on log::Log::enabled for env_logger::Logger: scanning the
/// directives from the end, the first whose scope covers the target
/// decides, admitting levels no more verbose than its own; with none
/// covering, the record is rejected.
#[verifier::external_body]
fn logger_enabled(l: &env_logger::Logger, target: &str, level: Level) -> (r: bool)
    ensures
        r == scan_admits(logger_directives(*l), target@, rank(level)),
{
    let level = match level {
        Level::Error => log::Level::Error,
        Level::Warn => log::Level::Warn,
        Level::Info => log::Level::Info,
        Level::Debug => log::Level::Debug,
        Level::Trace => log::Level::Trace,
    };
    let metadata = log::Metadata::builder().level(level).target(target).build();
    log::Log::enabled(l, &metadata)
}

} // verus!
