//! The install planner: builds the dependency-ordered list of install
//! commands for a requested selection of items, by depth-first traversal
//! with cycle detection over glob-matched dependency edges.
//!
//! The planner decides; the caller runs.  Every planned step carries the
//! item and its command; the caller renders the shell wrapper, tokenizes
//! through [`tokenize_command`], runs the process, and feeds the outcome to
//! [`Install::report_outcome`] to decide whether to continue.

use vstd::prelude::*;

use crate::dot::{Dot, Installs};
use crate::glob::{glob_match, glob_ok, set_matches, Pattern, PatternSet};
use crate::helpers;

verus! {

/// One planned install: the item and the command to run for it.
#[derive(Debug, Clone, PartialEq)]
pub struct PlanStep {
    pub name: String,
    pub cmd: String,
}

/// Why planning or running an install failed.
#[derive(Debug, Clone, PartialEq)]
pub enum Error {
    /// A generic dependency matches an item already on the traversal path.
    CyclicDependency { name: String, through: String },
    /// An installation dependency matches an item on the traversal path.
    CyclicInstallDependency { name: String, through: String },
    /// No candidate item matches the dependency; carries the item and the
    /// dependency pattern.
    DependencyNotFound(String, String),
    /// The dependency string is no valid glob; carries it and the build
    /// error text.
    ParseGlob(String, String),
    /// The rendered install command could not be tokenized; carries the item.
    ParsingInstallCommand(String),
    /// The install command of the named item did not run successfully.
    InstallExecute(String, helpers::RunError),
}

/// Model of a planning error, over plain character sequences.
#[verifier::ext_equal]
pub enum ErrorModel {
    Cyclic { name: Seq<char>, through: Seq<char> },
    CyclicInstall { name: Seq<char>, through: Seq<char> },
    NotFound { item: Seq<char>, dependency: Seq<char> },
    BadGlob { dependency: Seq<char> },
    BadCommand { item: Seq<char> },
    Execute { item: Seq<char> },
}

/// The model of an error value.
pub open spec fn error_model(e: Error) -> ErrorModel {
    match e {
        Error::CyclicDependency { name, through } => ErrorModel::Cyclic {
            name: name@,
            through: through@,
        },
        Error::CyclicInstallDependency { name, through } => ErrorModel::CyclicInstall {
            name: name@,
            through: through@,
        },
        Error::DependencyNotFound(item, dependency) => ErrorModel::NotFound {
            item: item@,
            dependency: dependency@,
        },
        Error::ParseGlob(dependency, _) => ErrorModel::BadGlob { dependency: dependency@ },
        Error::ParsingInstallCommand(item) => ErrorModel::BadCommand { item: item@ },
        Error::InstallExecute(item, _) => ErrorModel::Execute { item: item@ },
    }
}

/// Model of one candidate's install data: the command with its install
/// dependencies, and the generic dependencies, orders kept.
#[verifier::ext_equal]
pub struct EntryModel {
    pub installs: Option<(Seq<char>, Seq<Seq<char>>)>,
    pub depends: Option<Seq<Seq<char>>>,
}

/// The model of one candidate entry.
pub open spec fn entry_model(e: (Option<Installs>, Option<Vec<String>>)) -> EntryModel {
    EntryModel {
        installs: match e.0 {
            None => None,
            Some(i) => Some((i.cmd@, i.depends.deep_view())),
        },
        depends: match e.1 {
            None => None,
            Some(d) => Some(d.deep_view()),
        },
    }
}

/// View of the candidate table.
pub open spec fn dots_view(s: Seq<(String, (Option<Installs>, Option<Vec<String>>))>) -> Seq<
    (Seq<char>, EntryModel),
> {
    s.map_values(
        |p: (String, (Option<Installs>, Option<Vec<String>>))| (p.0@, entry_model(p.1)),
    )
}

/// View of a plan.
pub open spec fn plan_view(s: Seq<PlanStep>) -> Seq<(Seq<char>, Seq<char>)> {
    s.map_values(|p: PlanStep| (p.name@, p.cmd@))
}

/// The dependency pattern matches some item on the traversal path.
pub open spec fn spec_stack_hit(stack: Seq<Seq<char>>, pat: Seq<char>) -> bool {
    exists|i: int| 0 <= i < stack.len() && glob_match(pat, #[trigger] stack[i])
}

/// The first candidate the dependency pattern matches, searching from
/// position `from`.
pub open spec fn spec_find_match(
    dots: Seq<(Seq<char>, EntryModel)>,
    pat: Seq<char>,
    from: int,
) -> Option<int>
    decreases dots.len() - from
        when 0 <= from <= dots.len()
{
    if from >= dots.len() {
        None
    } else if glob_match(pat, dots[from].0) {
        Some(from)
    } else {
        spec_find_match(dots, pat, from + 1)
    }
}

/// Visits one item: unless it was already attempted, its installation
/// dependencies and generic dependencies are visited first (subject to the
/// skip switches), then its own command is appended and the item is marked
/// attempted.  The traversal path is carried for cycle detection.
pub open spec fn spec_visit(
    dots: Seq<(Seq<char>, EntryModel)>,
    name: Seq<char>,
    entry: EntryModel,
    installed: Set<Seq<char>>,
    stack: Seq<Seq<char>>,
    skip_install_deps: bool,
    skip_deps: bool,
) -> Result<(Seq<(Seq<char>, Seq<char>)>, Set<Seq<char>>), ErrorModel>
    decreases dots.len() + 1 - stack.len(), 0int, 0int
        when stack.len() <= dots.len() + 1
{
    if installed.contains(name) {
        Ok((Seq::empty(), installed))
    } else {
        let stack2 = stack.push(name);
        // The traversal path holds distinct candidate names, so it can never
        // outgrow the candidate table; the bound keeps the recursion
        // well-founded, and the branch is unreachable for such paths.
        if stack2.len() > dots.len() {
            Err(ErrorModel::NotFound { item: name, dependency: name })
        } else {
            let r1 = if entry.installs is Some && !skip_install_deps {
                spec_visit_deps(
                    dots,
                    (entry.installs->0).1,
                    name,
                    installed,
                    stack2,
                    true,
                    skip_install_deps,
                    skip_deps,
                )
            } else {
                Ok((Seq::empty(), installed))
            };
            match r1 {
                Err(e) => Err(e),
                Ok((plan1, inst1)) => {
                    let r2 = if entry.depends is Some && !skip_deps {
                        spec_visit_deps(
                            dots,
                            entry.depends->0,
                            name,
                            inst1,
                            stack2,
                            false,
                            skip_install_deps,
                            skip_deps,
                        )
                    } else {
                        Ok((Seq::empty(), inst1))
                    };
                    match r2 {
                        Err(e) => Err(e),
                        Ok((plan2, inst2)) => {
                            if entry.installs is Some {
                                Ok(
                                    (
                                        plan1 + plan2 + seq![(name, (entry.installs->0).0)],
                                        inst2.insert(name),
                                    ),
                                )
                            } else {
                                Ok((plan1 + plan2, inst2))
                            }
                        },
                    }
                },
            }
        }
    }
}

/// Visits a dependency list in order: each dependency is a glob, matched
/// first against the traversal path (a hit is a cycle, of the install or
/// generic kind) and then against the candidates, recursing into the first
/// match; a dependency matching nothing fails.
pub open spec fn spec_visit_deps(
    dots: Seq<(Seq<char>, EntryModel)>,
    deps: Seq<Seq<char>>,
    through: Seq<char>,
    installed: Set<Seq<char>>,
    stack: Seq<Seq<char>>,
    install_kind: bool,
    skip_install_deps: bool,
    skip_deps: bool,
) -> Result<(Seq<(Seq<char>, Seq<char>)>, Set<Seq<char>>), ErrorModel>
    decreases dots.len() + 1 - stack.len(), 1int, deps.len()
        when stack.len() <= dots.len() + 1
{
    if deps.len() == 0 {
        Ok((Seq::empty(), installed))
    } else {
        let dep = deps[0];
        if !glob_ok(dep) {
            Err(ErrorModel::BadGlob { dependency: dep })
        } else if spec_stack_hit(stack, dep) {
            if install_kind {
                Err(ErrorModel::CyclicInstall { name: dep, through })
            } else {
                Err(ErrorModel::Cyclic { name: dep, through })
            }
        } else {
            match spec_find_match(dots, dep, 0) {
                None => Err(ErrorModel::NotFound { item: through, dependency: dep }),
                Some(idx) => match spec_visit(
                    dots,
                    dots[idx].0,
                    dots[idx].1,
                    installed,
                    stack,
                    skip_install_deps,
                    skip_deps,
                ) {
                    Err(e) => Err(e),
                    Ok((plan1, inst1)) => match spec_visit_deps(
                        dots,
                        deps.drop_first(),
                        through,
                        inst1,
                        stack,
                        install_kind,
                        skip_install_deps,
                        skip_deps,
                    ) {
                        Err(e) => Err(e),
                        Ok((plan2, inst2)) => Ok((plan1 + plan2, inst2)),
                    },
                },
            }
        }
    }
}

/// The whole plan for a selection: candidates are taken in table order, and
/// every candidate the selection matches is visited against the shared
/// attempted set.
pub open spec fn spec_plan(
    dots: Seq<(Seq<char>, EntryModel)>,
    pats: Seq<Seq<char>>,
    installed: Set<Seq<char>>,
    i: int,
    skip_install_deps: bool,
    skip_deps: bool,
) -> Result<(Seq<(Seq<char>, Seq<char>)>, Set<Seq<char>>), ErrorModel>
    decreases dots.len() - i
        when 0 <= i <= dots.len()
{
    if i >= dots.len() {
        Ok((Seq::empty(), installed))
    } else {
        let step = if set_matches(pats, dots[i].0) {
            spec_visit(
                dots,
                dots[i].0,
                dots[i].1,
                installed,
                Seq::empty(),
                skip_install_deps,
                skip_deps,
            )
        } else {
            Ok((Seq::empty(), installed))
        };
        match step {
            Err(e) => Err(e),
            Ok((p1, i1)) => match spec_plan(dots, pats, i1, i + 1, skip_install_deps, skip_deps) {
                Err(e) => Err(e),
                Ok((p2, i2)) => Ok((p1 + p2, i2)),
            },
        }
    }
}

/// The install command core: the candidate table (items carrying an install
/// or dependencies, keyed by canonical name), the set of items already
/// attempted in this run, and the traversal switches.
#[derive(Debug)]
pub struct Install {
    pub dots: Vec<(String, (Option<Installs>, Option<Vec<String>>))>,
    pub installed: Vec<String>,
    pub continue_on_error: bool,
    pub skip_dependencies: bool,
    pub skip_installation_dependencies: bool,
    pub skip_all_dependencies: bool,
}

/// A resolved item becomes an install candidate when it carries an install
/// or dependencies.
pub open spec fn spec_is_candidate(p: (String, Dot)) -> bool {
    p.1.installs is Some || p.1.depends is Some
}

/// The entry model of a resolved item.
pub open spec fn dot_entry_model(d: Dot) -> EntryModel {
    EntryModel {
        installs: match d.installs {
            None => None,
            Some(i) => Some((i.cmd@, i.depends.deep_view())),
        },
        depends: match d.depends {
            None => None,
            Some(ds) => Some(ds.deep_view()),
        },
    }
}

/// The names of resolved items, in order.
pub open spec fn dot_names(s: Seq<(String, Dot)>) -> Seq<Seq<char>> {
    s.map_values(|p: (String, Dot)| p.0@)
}

/// The candidate table described by the resolved items, in order.
pub open spec fn candidates_of(s: Seq<(String, Dot)>) -> Seq<(Seq<char>, EntryModel)>
    decreases s.len(),
{
    if s.len() == 0 {
        Seq::empty()
    } else {
        let rest = candidates_of(s.drop_last());
        if spec_is_candidate(s.last()) {
            rest.push((s.last().0@, dot_entry_model(s.last().1)))
        } else {
            rest
        }
    }
}

impl Install {
    /// Names of the candidate table, in order.
    pub open spec fn names(&self) -> Seq<Seq<char>> {
        self.dots@.map_values(
            |p: (String, (Option<Installs>, Option<Vec<String>>))| p.0@,
        )
    }

    /// Candidate names are pairwise distinct.
    pub open spec fn wf(&self) -> bool {
        crate::dot::repr::unique_seqs(self.names())
    }

    /// Whether installation dependencies are skipped.
    pub open spec fn skip_install_eff(&self) -> bool {
        self.skip_all_dependencies || self.skip_installation_dependencies
    }

    /// Whether generic dependencies are skipped.
    pub open spec fn skip_deps_eff(&self) -> bool {
        self.skip_all_dependencies || self.skip_dependencies
    }

    /// Builds the install core from resolved items: items carrying an
    /// install or dependencies become candidates, in order, with nothing
    /// attempted yet.
    pub fn new(
        dots: Vec<(String, Dot)>,
        continue_on_error: bool,
        skip_dependencies: bool,
        skip_installation_dependencies: bool,
        skip_all_dependencies: bool,
    ) -> (r: Install)
        requires
            crate::dot::repr::unique_seqs(dot_names(dots@)),
        ensures
            r.wf(),
            dots_view(r.dots@) == candidates_of(dots@),
            r.installed@.len() == 0,
            r.continue_on_error == continue_on_error,
            r.skip_dependencies == skip_dependencies,
            r.skip_installation_dependencies == skip_installation_dependencies,
            r.skip_all_dependencies == skip_all_dependencies,
    {
        broadcast use vstd::prelude::Seq::lemma_filter_push;
        broadcast use vstd::prelude::Seq::lemma_push_map_commute;

        let ghost iv = dots@;
        let mut rest = dots;
        let mut table: Vec<(String, (Option<Installs>, Option<Vec<String>>))> = Vec::new();
        let ghost i: int = 0;
        proof {
            assert(iv.take(0) =~= Seq::<(String, Dot)>::empty());
            assert(candidates_of(iv.take(0)) =~= Seq::<(Seq<char>, EntryModel)>::empty());
            assert(dots_view(table@) =~= candidates_of(iv.take(0)));
        }
        while rest.len() > 0
            invariant
                0 <= i <= iv.len(),
                rest@ == iv.skip(i),
                dots_view(table@) == candidates_of(iv.take(i)),
            decreases rest@.len(),
        {
            let (name, dot) = rest.remove(0);
            proof {
                assert(iv.skip(i)[0] == iv[i]);
                assert(rest@ =~= iv.skip(i + 1));
                assert(iv.take(i + 1).drop_last() =~= iv.take(i));
                assert(iv.take(i + 1).last() == iv[i]);
            }
            let keep = match (&dot.installs, &dot.depends) {
                (None, None) => false,
                _ => true,
            };
            if keep {
                let ghost pre = table@;
                table.push((name, (dot.installs, dot.depends)));
                proof {
                    assert(spec_is_candidate(iv[i]));
                    assert(dots_view(table@) =~= dots_view(pre).push(
                        (iv[i].0@, dot_entry_model(iv[i].1)),
                    ));
                    assert(candidates_of(iv.take(i + 1)) == candidates_of(iv.take(i)).push(
                        (iv[i].0@, dot_entry_model(iv[i].1)),
                    ));
                }
            } else {
                proof {
                    assert(!spec_is_candidate(iv[i]));
                    assert(candidates_of(iv.take(i + 1)) == candidates_of(iv.take(i)));
                }
            }
            proof {
                i = i + 1;
            }
        }
        proof {
            assert(iv.take(iv.len() as int) =~= iv);
        }
        let r = Install {
            dots: table,
            installed: Vec::new(),
            continue_on_error,
            skip_dependencies,
            skip_installation_dependencies,
            skip_all_dependencies,
        };
        proof {
            lemma_candidates_unique(iv);
            assert(r.wf()) by {
                assert(forall|m: int|
                    0 <= m < r.names().len() ==> #[trigger] r.names()[m] == dots_view(
                        r.dots@,
                    )[m].0);
            }
        }
        r
    }

    /// The first candidate the pattern matches.
    fn find_match(&self, pat: &Pattern) -> (r: Option<usize>)
        ensures
            r is Some <==> spec_find_match(dots_view(self.dots@), pat.pattern(), 0) is Some,
            r is Some ==> Some(r->0 as int) == spec_find_match(dots_view(self.dots@), pat.pattern(), 0)
                && r->0 < self.dots@.len(),
    {
        let ghost dv = dots_view(self.dots@);
        let mut i: usize = 0;
        while i < self.dots.len()
            invariant
                i <= self.dots@.len(),
                dv == dots_view(self.dots@),
                spec_find_match(dv, pat.pattern(), 0) == spec_find_match(dv, pat.pattern(), i as int),
            decreases self.dots@.len() - i,
        {
            proof {
                assert(dv[i as int].0 == self.dots@[i as int].0@);
            }
            if pat.is_match(self.dots[i].0.as_str()) {
                return Some(i);
            }
            i = i + 1;
        }
        None
    }
}

/// Whether the pattern matches an item on the traversal path.
fn stack_hit(stack: &Vec<String>, pat: &Pattern) -> (r: bool)
    ensures
        r == spec_stack_hit(stack.deep_view(), pat.pattern()),
{
    let mut i: usize = 0;
    while i < stack.len()
        invariant
            i <= stack@.len(),
            forall|j: int| 0 <= j < i ==> !glob_match(pat.pattern(), #[trigger] stack.deep_view()[j]),
        decreases stack@.len() - i,
    {
        if pat.is_match(stack[i].as_str()) {
            proof {
                assert(glob_match(pat.pattern(), stack.deep_view()[i as int]));
            }
            return true;
        }
        i = i + 1;
    }
    false
}

impl Install {
    /// Visits the candidate at `idx`, planning its dependencies and command.
    fn install(&self, idx: usize, installed: Vec<String>, stack: &Vec<String>) -> (r: Result<
        (Vec<PlanStep>, Vec<String>),
        Error,
    >)
        requires
            self.wf(),
            idx < self.dots@.len(),
            crate::dot::repr::unique_seqs(stack.deep_view()),
            stack.deep_view().to_set().subset_of(self.names().to_set()),
            !stack.deep_view().contains(self.dots@[idx as int].0@),
        ensures
            match spec_visit(
                dots_view(self.dots@),
                self.dots@[idx as int].0@,
                entry_model(self.dots@[idx as int].1),
                installed.deep_view().to_set(),
                stack.deep_view(),
                self.skip_install_eff(),
                self.skip_deps_eff(),
            ) {
                Ok((plan, inst)) => r is Ok && plan_view((r->Ok_0).0@) == plan && (
                r->Ok_0).1.deep_view().to_set() == inst,
                Err(em) => r is Err && error_model(r->Err_0) == em,
            },
        decreases self.dots@.len() - stack@.len(), 0int, 0int,
    {
        proof {
            lemma_distinct_subset_len(stack.deep_view(), self.names());
            assert(self.names().len() == self.dots@.len());
            assert(self.names()[idx as int] == self.dots@[idx as int].0@);
            assert(stack.deep_view().len() < self.dots@.len()) by {
                lemma_distinct_subset_len_strict(
                    stack.deep_view(),
                    self.names(),
                    self.dots@[idx as int].0@,
                    idx as int,
                );
            }
        }
        let ghost dv = dots_view(self.dots@);
        let name = &self.dots[idx].0;
        let ghost nm = name@;
        proof {
            assert(dv[idx as int] == (nm, entry_model(self.dots@[idx as int].1)));
        }
        if crate::dot::repr::contains_str(&installed, name.as_str()) {
            proof {
                assert(plan_view(Seq::<PlanStep>::empty()) =~= Seq::<(Seq<char>, Seq<char>)>::empty());
            }
            return Ok((Vec::new(), installed));
        }
        let mut stack2 = helpers::clone_strings(stack);
        stack2.push(name.clone());
        proof {
            assert(stack2.deep_view() =~~= stack.deep_view().push(nm));
            assert(stack2.deep_view().len() <= self.dots@.len());
            assert(crate::dot::repr::unique_seqs(stack2.deep_view())) by {
                assert(forall|m: int|
                    0 <= m < stack.deep_view().len() ==> stack2.deep_view()[m] == #[trigger] stack.deep_view()[m]);
            }
            assert(stack2.deep_view().to_set().subset_of(self.names().to_set())) by {
                broadcast use vstd::prelude::Seq::lemma_push_to_set_commute;

                assert(self.names().to_set().contains(nm)) by {
                    assert(self.names()[idx as int] == nm);
                }
            }
        }
        let entry = &self.dots[idx].1;
        let mut plan: Vec<PlanStep> = Vec::new();
        let mut inst = installed;
        let ghost inst0 = inst.deep_view().to_set();
        let skip_i = self.skip_all_dependencies || self.skip_installation_dependencies;
        let skip_d = self.skip_all_dependencies || self.skip_dependencies;
        let ghost em = entry_model(self.dots@[idx as int].1);
        let ghost sv = spec_visit(
            dv,
            nm,
            em,
            inst0,
            stack.deep_view(),
            self.skip_install_eff(),
            self.skip_deps_eff(),
        );
        let ghost r1 = if em.installs is Some && !self.skip_install_eff() {
            spec_visit_deps(
                dv,
                (em.installs->0).1,
                nm,
                inst0,
                stack2.deep_view(),
                true,
                self.skip_install_eff(),
                self.skip_deps_eff(),
            )
        } else {
            Ok((Seq::<(Seq<char>, Seq<char>)>::empty(), inst0))
        };
        // installation dependencies first
        if !skip_i {
            if let Some(installs) = &entry.0 {
                match self.install_deps(&installs.depends, 0, name, inst, &stack2, true) {
                    Err(e) => {
                        proof {
                            assert((em.installs->0).1 =~= installs.depends.deep_view().skip(0));
                            assert(r1 == Err::<(Seq<(Seq<char>, Seq<char>)>, Set<Seq<char>>), ErrorModel>(
                                error_model(e),
                            ));
                            assert(sv == r1);
                        }
                        return Err(e);
                    },
                    Ok((p1, i1)) => {
                        proof {
                            assert((em.installs->0).1 =~= installs.depends.deep_view().skip(0));
                        }
                        plan = p1;
                        inst = i1;
                    },
                }
            }
        }
        proof {
            assert(r1 is Ok);
            assert(plan_view(plan@) == (r1->Ok_0).0 && inst.deep_view().to_set() == (r1->Ok_0).1)
                by {
                if !(em.installs is Some && !self.skip_install_eff()) {
                    assert(plan_view(Seq::<PlanStep>::empty())
                        =~= Seq::<(Seq<char>, Seq<char>)>::empty());
                }
            }
        }
        let ghost plan1 = plan_view(plan@);
        let ghost inst1 = inst.deep_view().to_set();
        let ghost r2 = if em.depends is Some && !self.skip_deps_eff() {
            spec_visit_deps(
                dv,
                em.depends->0,
                nm,
                inst1,
                stack2.deep_view(),
                false,
                self.skip_install_eff(),
                self.skip_deps_eff(),
            )
        } else {
            Ok((Seq::<(Seq<char>, Seq<char>)>::empty(), inst1))
        };
        // generic dependencies
        if !skip_d {
            if let Some(depends) = &entry.1 {
                match self.install_deps(depends, 0, name, inst, &stack2, false) {
                    Err(e) => {
                        proof {
                            assert(em.depends->0 =~= depends.deep_view().skip(0));
                            assert(r2 == Err::<(Seq<(Seq<char>, Seq<char>)>, Set<Seq<char>>), ErrorModel>(
                                error_model(e),
                            ));
                            assert(sv == r2);
                        }
                        return Err(e);
                    },
                    Ok((p2, i2)) => {
                        proof {
                            assert(em.depends->0 =~= depends.deep_view().skip(0));
                        }
                        let ghost pv = plan_view(plan@);
                        let ghost p2v = plan_view(p2@);
                        let mut p2m = p2;
                        plan.append(&mut p2m);
                        inst = i2;
                        proof {
                            assert(plan_view(plan@) =~= pv + p2v) by {
                                assert(forall|m: int|
                                    0 <= m < plan@.len() ==> plan_view(plan@)[m] == (
                                    #[trigger] plan@[m].name@, plan@[m].cmd@));
                            }
                        }
                    },
                }
            }
        }
        proof {
            assert(r2 is Ok);
            assert(plan_view(plan@) == plan1 + (r2->Ok_0).0 && inst.deep_view().to_set() == (
            r2->Ok_0).1) by {
                if !(em.depends is Some && !self.skip_deps_eff()) {
                    assert(plan1 + Seq::<(Seq<char>, Seq<char>)>::empty() =~= plan1);
                }
            }
        }
        let ghost plan2_total = plan_view(plan@);
        let ghost inst2 = inst.deep_view().to_set();
        // the item's own command, then mark it attempted
        if let Some(installs) = &entry.0 {
            let ghost pv = plan_view(plan@);
            plan.push(PlanStep { name: name.clone(), cmd: installs.cmd.clone() });
            proof {
                assert(plan_view(plan@) =~= pv.push((nm, installs.cmd@)));
                assert(plan_view(plan@) =~= (r1->Ok_0).0 + (r2->Ok_0).0 + seq![
                    (nm, (em.installs->0).0),
                ]);
            }
            let already = crate::dot::repr::contains_str(&inst, name.as_str());
            if !already {
                let ghost iv = inst.deep_view();
                inst.push(name.clone());
                proof {
                    broadcast use vstd::prelude::Seq::lemma_push_to_set_commute;

                    assert(inst.deep_view() =~~= iv.push(nm));
                    assert(inst.deep_view().to_set() =~= inst2.insert(nm));
                }
            } else {
                proof {
                    assert(inst.deep_view().to_set() =~= inst2.insert(nm));
                }
            }
            proof {
                assert(sv == Ok::<(Seq<(Seq<char>, Seq<char>)>, Set<Seq<char>>), ErrorModel>(
                    (plan_view(plan@), inst.deep_view().to_set()),
                ));
            }
        } else {
            proof {
                assert(plan_view(plan@) == (r1->Ok_0).0 + (r2->Ok_0).0);
                assert(sv == Ok::<(Seq<(Seq<char>, Seq<char>)>, Set<Seq<char>>), ErrorModel>(
                    (plan_view(plan@), inst.deep_view().to_set()),
                ));
            }
        }
        Ok((plan, inst))
    }

    /// Visits the dependency list `deps` from position `from`.
    fn install_deps(
        &self,
        deps: &Vec<String>,
        from: usize,
        through: &String,
        installed: Vec<String>,
        stack2: &Vec<String>,
        install_kind: bool,
    ) -> (r: Result<(Vec<PlanStep>, Vec<String>), Error>)
        requires
            self.wf(),
            from <= deps@.len(),
            crate::dot::repr::unique_seqs(stack2.deep_view()),
            stack2.deep_view().to_set().subset_of(self.names().to_set()),
            stack2.deep_view().len() >= 1,
        ensures
            match spec_visit_deps(
                dots_view(self.dots@),
                deps.deep_view().skip(from as int),
                through@,
                installed.deep_view().to_set(),
                stack2.deep_view(),
                install_kind,
                self.skip_install_eff(),
                self.skip_deps_eff(),
            ) {
                Ok((plan, inst)) => r is Ok && plan_view((r->Ok_0).0@) == plan && (
                r->Ok_0).1.deep_view().to_set() == inst,
                Err(em) => r is Err && error_model(r->Err_0) == em,
            },
        decreases self.dots@.len() - stack2@.len(), 1int, deps@.len() - from,
    {
        proof {
            lemma_distinct_subset_len(stack2.deep_view(), self.names());
            assert(self.names().len() == self.dots@.len());
        }
        let ghost dv = dots_view(self.dots@);
        let ghost rem = deps.deep_view().skip(from as int);
        if from == deps.len() {
            proof {
                assert(rem =~= Seq::<Seq<char>>::empty());
                assert(plan_view(Seq::<PlanStep>::empty()) =~= Seq::<(Seq<char>, Seq<char>)>::empty());
            }
            return Ok((Vec::new(), installed));
        }
        let dep = &deps[from];
        proof {
            assert(rem[0] == dep@);
            assert(rem.drop_first() =~= deps.deep_view().skip(from + 1));
        }
        let pat = match Pattern::new(dep.as_str()) {
            Ok(p) => p,
            Err(msg) => {
                return Err(Error::ParseGlob(dep.clone(), msg));
            },
        };
        if stack_hit(stack2, &pat) {
            if install_kind {
                return Err(
                    Error::CyclicInstallDependency { name: dep.clone(), through: through.clone() },
                );
            } else {
                return Err(
                    Error::CyclicDependency { name: dep.clone(), through: through.clone() },
                );
            }
        }
        let idx2 = match self.find_match(&pat) {
            Some(i) => i,
            None => {
                return Err(Error::DependencyNotFound(through.clone(), dep.clone()));
            },
        };
        proof {
            assert(glob_match(dep@, dv[idx2 as int].0)) by {
                lemma_find_match_hit(dv, dep@, 0, idx2 as int);
            }
            assert(dv[idx2 as int].0 == self.dots@[idx2 as int].0@);
            assert(!stack2.deep_view().contains(self.dots@[idx2 as int].0@)) by {
                if stack2.deep_view().contains(self.dots@[idx2 as int].0@) {
                    let target = self.dots@[idx2 as int].0@;
                    let j = choose|j: int|
                        0 <= j < stack2.deep_view().len() && stack2.deep_view()[j] == target;
                    assert(glob_match(dep@, stack2.deep_view()[j]));
                    assert(spec_stack_hit(stack2.deep_view(), dep@));
                }
            }
        }
        let (p1, i1) = match self.install(idx2, installed, stack2) {
            Ok(x) => x,
            Err(e) => {
                return Err(e);
            },
        };
        let (p2, i2) = match self.install_deps(deps, from + 1, through, i1, stack2, install_kind) {
            Ok(x) => x,
            Err(e) => {
                return Err(e);
            },
        };
        let ghost p1v = plan_view(p1@);
        let ghost p2v = plan_view(p2@);
        let mut plan = p1;
        let mut p2m = p2;
        plan.append(&mut p2m);
        proof {
            assert(plan_view(plan@) =~= p1v + p2v) by {
                assert(forall|m: int|
                    0 <= m < plan@.len() ==> plan_view(plan@)[m] == (
                    #[trigger] plan@[m].name@, plan@[m].cmd@));
            }
        }
        Ok((plan, i2))
    }
}

impl Install {
    /// Plans the whole run for a selection: every candidate the selection
    /// matches is visited in table order against the shared attempted set.
    /// On success the attempted set is updated; a planning error leaves the
    /// state untouched and plans nothing.
    pub fn execute(&mut self, requested: &PatternSet) -> (r: Result<Vec<PlanStep>, Error>)
        requires
            old(self).wf(),
        ensures
            final(self).dots == old(self).dots,
            final(self).continue_on_error == old(self).continue_on_error,
            final(self).skip_dependencies == old(self).skip_dependencies,
            final(self).skip_installation_dependencies
                == old(self).skip_installation_dependencies,
            final(self).skip_all_dependencies == old(self).skip_all_dependencies,
            match spec_plan(
                dots_view(old(self).dots@),
                requested@,
                old(self).installed.deep_view().to_set(),
                0,
                old(self).skip_install_eff(),
                old(self).skip_deps_eff(),
            ) {
                Ok((plan, inst)) => r is Ok && plan_view(r->Ok_0@) == plan
                    && final(self).installed.deep_view().to_set() == inst,
                Err(em) => r is Err && error_model(r->Err_0) == em
                    && final(self).installed == old(self).installed,
            },
    {
        let ghost dv = dots_view(self.dots@);
        let ghost inst0 = self.installed.deep_view().to_set();
        let ghost ski = self.skip_install_eff();
        let ghost skd = self.skip_deps_eff();
        let mut installed = helpers::clone_strings(&self.installed);
        let mut plan: Vec<PlanStep> = Vec::new();
        let mut i: usize = 0;
        proof {
            assert(plan_view(plan@) =~= Seq::<(Seq<char>, Seq<char>)>::empty());
            assert(installed.deep_view() =~~= self.installed.deep_view());
            match spec_plan(dv, requested@, inst0, 0, ski, skd) {
                Err(_) => {},
                Ok((p2, i2)) => {
                    assert(plan_view(plan@) + p2 =~= p2);
                },
            }
        }
        while i < self.dots.len()
            invariant
                *self == *old(self),
                self.wf(),
                i <= self.dots@.len(),
                dv == dots_view(self.dots@),
                inst0 == old(self).installed.deep_view().to_set(),
                ski == self.skip_install_eff(),
                skd == self.skip_deps_eff(),
                spec_plan(dv, requested@, inst0, 0, ski, skd) == (match spec_plan(
                    dv,
                    requested@,
                    installed.deep_view().to_set(),
                    i as int,
                    ski,
                    skd,
                ) {
                    Err(e) => Err(e),
                    Ok((p2, i2)) => Ok((plan_view(plan@) + p2, i2)),
                }),
            decreases self.dots@.len() - i,
        {
            let ghost pre_plan = plan_view(plan@);
            let ghost pre_inst = installed.deep_view().to_set();
            proof {
                assert(dv[i as int].0 == self.dots@[i as int].0@);
                assert(dv[i as int].1 == entry_model(self.dots@[i as int].1));
            }
            if requested.is_match(self.dots[i].0.as_str()) {
                let stack: Vec<String> = Vec::new();
                proof {
                    assert(stack.deep_view() =~~= Seq::<Seq<char>>::empty());
                    assert(crate::dot::repr::unique_seqs(stack.deep_view()));
                    assert(stack.deep_view().to_set() =~= Set::<Seq<char>>::empty());
                    assert(stack.deep_view().to_set().subset_of(self.names().to_set()));
                    assert(!stack.deep_view().contains(self.dots@[i as int].0@));
                }
                match self.install(i, installed, &stack) {
                    Err(e) => {
                        proof {
                            assert(spec_plan(dv, requested@, pre_inst, i as int, ski, skd)
                                == Err::<(Seq<(Seq<char>, Seq<char>)>, Set<Seq<char>>), ErrorModel>(
                                error_model(e),
                            ));
                        }
                        return Err(e);
                    },
                    Ok((p1, i1)) => {
                        let ghost p1v = plan_view(p1@);
                        let mut p1m = p1;
                        plan.append(&mut p1m);
                        installed = i1;
                        proof {
                            assert(plan_view(plan@) =~= pre_plan + p1v) by {
                                assert(forall|m: int|
                                    0 <= m < plan@.len() ==> plan_view(plan@)[m] == (
                                    #[trigger] plan@[m].name@, plan@[m].cmd@));
                            }
                            assert(spec_plan(dv, requested@, pre_inst, i as int, ski, skd) == (
                            match spec_plan(
                                dv,
                                requested@,
                                installed.deep_view().to_set(),
                                i + 1,
                                ski,
                                skd,
                            ) {
                                Err(e) => Err(e),
                                Ok((p2, i2)) => Ok((p1v + p2, i2)),
                            }));
                            match spec_plan(
                                dv,
                                requested@,
                                installed.deep_view().to_set(),
                                i + 1,
                                ski,
                                skd,
                            ) {
                                Err(_) => {},
                                Ok((p2, i2)) => {
                                    assert(pre_plan + (p1v + p2) =~= (pre_plan + p1v) + p2);
                                },
                            }
                        }
                    },
                }
            } else {
                proof {
                    assert(spec_plan(dv, requested@, pre_inst, i as int, ski, skd) == spec_plan(
                        dv,
                        requested@,
                        pre_inst,
                        i + 1,
                        ski,
                        skd,
                    ));
                }
            }
            i = i + 1;
        }
        self.installed = installed;
        Ok(plan)
    }

    /// Decides whether the run continues after one command's outcome: a
    /// failure stops the run unless continue-on-error is set.  The item
    /// stays attempted either way and is never retried within the run.
    pub fn report_outcome(&self, success: bool) -> (r: bool)
        ensures
            r == (success || self.continue_on_error),
    {
        success || self.continue_on_error
    }
}

/// The tokenization of a command string, as the `shellwords` crate defines
/// it; the result depends on the string alone, with mismatched quotes the
/// only failure.
pub uninterp spec fn split_words(s: Seq<char>) -> Option<Seq<Seq<char>>>;

/// Relies on `shellwords::split`: it tokenizes the command string into
/// words, failing exactly on mismatched quotes.
#[verifier::external_body]
fn shell_split(cmd: &str) -> (r: Option<Vec<String>>)
    ensures
        r is Some <==> split_words(cmd@) is Some,
        r is Some ==> Some(r->0.deep_view()) == split_words(cmd@),
{
    shellwords::split(cmd).ok()
}

/// Tokenizes the rendered install command of `item` into the program and its
/// arguments.
pub fn tokenize_command(item: &str, cmd: &str) -> (r: Result<Vec<String>, Error>)
    ensures
        r is Ok <==> split_words(cmd@) is Some,
        r is Ok ==> Some(r->Ok_0.deep_view()) == split_words(cmd@),
        r is Err ==> (r->Err_0 matches Error::ParsingInstallCommand(it) && it@ == item@),
{
    match shell_split(cmd) {
        Some(v) => Ok(v),
        None => Err(Error::ParsingInstallCommand(String::from_str(item))),
    }
}

proof fn lemma_candidates_unique(s: Seq<(String, Dot)>)
    requires
        crate::dot::repr::unique_seqs(dot_names(s)),
    ensures
        forall|m1: int, m2: int|
            0 <= m1 < m2 < candidates_of(s).len() ==> (#[trigger] candidates_of(s)[m1]).0 != (
            #[trigger] candidates_of(s)[m2]).0,
        forall|m: int|
            0 <= m < candidates_of(s).len() ==> (exists|k: int|
                0 <= k < s.len() && (#[trigger] candidates_of(s)[m]).0 == s[k].0@),
    decreases s.len(),
{
    if s.len() == 0 {
    } else {
        let t = s.drop_last();
        let x = s.last();
        assert(dot_names(t) =~= dot_names(s).drop_last());
        assert(crate::dot::repr::unique_seqs(dot_names(t)));
        lemma_candidates_unique(t);
        assert(forall|k: int| 0 <= k < s.len() ==> #[trigger] dot_names(s)[k] == s[k].0@);
        if spec_is_candidate(x) {
            assert(candidates_of(s) == candidates_of(t).push((x.0@, dot_entry_model(x.1))));
            assert forall|k: int| 0 <= k < t.len() implies (#[trigger] t[k]).0@ != x.0@ by {
                assert(t[k] == s[k]);
                assert(dot_names(s)[k] == s[k].0@);
                assert(dot_names(s)[s.len() - 1] == x.0@);
                assert(dot_names(s)[k] != dot_names(s)[s.len() - 1]);
            }
            assert(forall|m: int|
                0 <= m < candidates_of(t).len() ==> (#[trigger] candidates_of(s)[m])
                    == candidates_of(t)[m]);
            assert(forall|m: int|
                0 <= m < candidates_of(t).len() ==> (#[trigger] candidates_of(s)[m]).0 != x.0@);
        } else {
            assert(candidates_of(s) == candidates_of(t));
        }
    }
}

proof fn lemma_find_match_hit(dots: Seq<(Seq<char>, EntryModel)>, pat: Seq<char>, from: int, idx: int)
    requires
        0 <= from <= dots.len(),
        spec_find_match(dots, pat, from) == Some(idx),
    ensures
        0 <= idx < dots.len(),
        glob_match(pat, dots[idx].0),
    decreases dots.len() - from,
{
    if from >= dots.len() {
    } else if glob_match(pat, dots[from].0) {
    } else {
        lemma_find_match_hit(dots, pat, from + 1, idx);
    }
}

proof fn lemma_distinct_subset_len(s: Seq<Seq<char>>, names: Seq<Seq<char>>)
    requires
        crate::dot::repr::unique_seqs(s),
        s.to_set().subset_of(names.to_set()),
    ensures
        s.len() <= names.len(),
{
    broadcast use vstd::seq_lib::seq_to_set_is_finite;

    assert(s.no_duplicates());
    s.unique_seq_to_set();
    names.lemma_cardinality_of_set();
    vstd::set_lib::lemma_len_subset(s.to_set(), names.to_set());
}

proof fn lemma_distinct_subset_len_strict(
    s: Seq<Seq<char>>,
    names: Seq<Seq<char>>,
    excluded: Seq<char>,
    idx: int,
)
    requires
        crate::dot::repr::unique_seqs(s),
        s.to_set().subset_of(names.to_set()),
        0 <= idx < names.len(),
        names[idx] == excluded,
        !s.contains(excluded),
    ensures
        s.len() < names.len(),
{
    broadcast use vstd::seq_lib::seq_to_set_is_finite;

    assert(s.no_duplicates());
    s.unique_seq_to_set();
    assert(s.to_set().subset_of(names.to_set().remove(excluded)));
    assert(names.to_set().contains(excluded));
    vstd::set_lib::lemma_len_subset(s.to_set(), names.to_set().remove(excluded));
    names.lemma_cardinality_of_set();
    assert(names.to_set().remove(excluded).len() == names.to_set().len() - 1);
}

} // verus!
