//! Jobs that share an assignee key go to one vehicle, across routes and
//! shifts, in any order.
use vstd::prelude::*;
use crate::group_table::{
    find_key, keys_unique, lemma_key_index_bounds, lemma_upsert_unique_all, lookup, table_view, upsert,
};
use crate::model::{Job, Route, RouteContext};
use crate::solution::{activity_jobs, routed_jobs, ConstraintViolation, SolutionContext, ViolationCode};

verus! {

/// The vehicle an assignee key is bound to, keyed by the key's characters.
pub open spec fn assignee_table(s: SolutionContext) -> Seq<(Seq<char>, usize)> {
    match s.state.assignees {
        Some(t) => table_view(t@),
        None => Seq::empty(),
    }
}

/// Whether `job` would land on a different vehicle than its key is bound to.
pub open spec fn assignee_refused(s: SolutionContext, route: Route, job: Job) -> bool {
    match job.dimens.same_assignee_key {
        None => false,
        Some(k) => match lookup(assignee_table(s), k@) {
            Some(v) => v != route.actor.vehicle.id,
            None => false,
        },
    }
}

/// Whether two jobs may be merged: neither has a key, or both the same.
pub open spec fn assignee_merge_allowed(source: Job, candidate: Job) -> bool {
    match (source.dimens.same_assignee_key, candidate.dimens.same_assignee_key) {
        (None, None) => true,
        (Some(a), Some(b)) => a@ == b@,
        _ => false,
    }
}

/// The table after binding the key of `job` to the vehicle of `route`.
pub open spec fn bind(t: Seq<(Seq<char>, usize)>, route: Route, job: Job) -> Seq<(Seq<char>, usize)> {
    match job.dimens.same_assignee_key {
        Some(k) => upsert(t, k@, route.actor.vehicle.id),
        None => t,
    }
}

/// The bindings rebuilt from the routed jobs in turn.
pub open spec fn rebind(items: Seq<(Route, Job)>) -> Seq<(Seq<char>, usize)>
    decreases items.len(),
{
    if items.len() == 0 {
        Seq::empty()
    } else {
        bind(rebind(items.drop_last()), items.last().0, items.last().1)
    }
}

/// Rebuilt bindings have one entry per key.
pub proof fn lemma_rebind_unique(items: Seq<(Route, Job)>)
    ensures
        keys_unique(rebind(items)),
    decreases items.len(),
{
    if items.len() > 0 {
        lemma_rebind_unique(items.drop_last());
        lemma_upsert_unique_all(rebind(items.drop_last()));
    }
}

/// Keeps jobs with one assignee key on one vehicle.
#[derive(Clone, Debug)]
pub struct SameAssigneeFeature {
    pub name: String,
    pub code: ViolationCode,
}

/// Creates the same-assignee feature.
pub fn create_same_assignee_feature(name: &str, code: ViolationCode) -> (r: Result<
    SameAssigneeFeature,
    String,
>)
    ensures
        r matches Ok(f) && f.name@ == name@ && f.code == code,
{
    Ok(SameAssigneeFeature { name: name.to_owned(), code })
}

fn bind_in(table: &mut Vec<(String, usize)>, route: &Route, job: &Job)
    ensures
        table_view(final(table)@) == bind(table_view(old(table)@), *route, *job),
{
    let key = match &job.dimens.same_assignee_key {
        Some(k) => k,
        None => return ,
    };
    let vehicle = route.actor.vehicle.id;
    let ghost tv = table_view(table@);
    match find_key(table, key) {
        Some(i) => {
            proof {
                lemma_key_index_bounds(tv, key@);
            }
            let ghost old_t = table@;
            let (k, _) = table.remove(i);
            table.insert(i, (k, vehicle));
            assert(table@ =~= old_t.update(i as int, (k, vehicle)));
            assert(table_view(table@) =~= tv.update(i as int, (key@, vehicle)));
        },
        None => {
            table.push((key.clone(), vehicle));
            assert(table_view(table@) =~= tv.push((key@, vehicle)));
        },
    }
}

impl SameAssigneeFeature {
    /// Refuses `job` in the route when its key is bound to another vehicle.
    pub fn evaluate(&self, solution_ctx: &SolutionContext, route_ctx: &RouteContext, job: &Job) -> (r:
        Option<ConstraintViolation>)
        ensures
            r == if assignee_refused(*solution_ctx, route_ctx.route, *job) {
                Some(ConstraintViolation { code: self.code, stopped: true })
            } else {
                None::<ConstraintViolation>
            },
    {
        let key = match &job.dimens.same_assignee_key {
            Some(k) => k,
            None => return None,
        };
        let table = match &solution_ctx.state.assignees {
            Some(t) => t,
            None => return None,
        };
        match find_key(table, key) {
            Some(i) => {
                assert(lookup(assignee_table(*solution_ctx), key@) == Some(table@[i as int].1));
                if table[i].1 != route_ctx.route.actor.vehicle.id {
                    ConstraintViolation::fail(self.code)
                } else {
                    None
                }
            },
            None => None,
        }
    }

    /// Merges two clustered jobs when their keys agree.
    pub fn merge(&self, source: Job, candidate: &Job) -> (r: Result<Job, ViolationCode>)
        ensures
            assignee_merge_allowed(source, *candidate) ==> r == Ok::<Job, ViolationCode>(source),
            !assignee_merge_allowed(source, *candidate) ==> r == Err::<Job, ViolationCode>(
                self.code,
            ),
    {
        let allowed = match (&source.dimens.same_assignee_key, &candidate.dimens.same_assignee_key) {
            (None, None) => true,
            (Some(a), Some(b)) => a.eq(b),
            _ => false,
        };
        if allowed {
            Ok(source)
        } else {
            Err(self.code)
        }
    }

    /// Binds the key of a job just committed to route `route_index` to that
    /// route's vehicle.
    pub fn accept_insertion(&self, solution_ctx: &mut SolutionContext, route_index: usize, job: &Job)
        requires
            route_index < old(solution_ctx).routes.len(),
        ensures
            final(solution_ctx).routes == old(solution_ctx).routes,
            final(solution_ctx).required == old(solution_ctx).required,
            final(solution_ctx).ignored == old(solution_ctx).ignored,
            final(solution_ctx).state.sequence_groups == old(solution_ctx).state.sequence_groups,
            final(solution_ctx).state.sync_groups == old(solution_ctx).state.sync_groups,
            final(solution_ctx).state.affinities == old(solution_ctx).state.affinities,
            final(solution_ctx).state.affinity_groups == old(solution_ctx).state.affinity_groups,
            job.dimens.same_assignee_key is Some ==> final(solution_ctx).state.assignees is Some
                && assignee_table(*final(solution_ctx)) == bind(
                assignee_table(*old(solution_ctx)),
                old(solution_ctx).routes@[route_index as int].route,
                *job,
            ),
            job.dimens.same_assignee_key is None ==> final(solution_ctx).state.assignees == old(
                solution_ctx).state.assignees,
            keys_unique(assignee_table(*old(solution_ctx))) ==> keys_unique(
                assignee_table(*final(solution_ctx)),
            ),
    {
        proof {
            if keys_unique(assignee_table(*solution_ctx)) {
                lemma_upsert_unique_all(assignee_table(*solution_ctx));
            }
        }
        if job.dimens.same_assignee_key.is_none() {
            return ;
        }
        let mut table = match solution_ctx.state.assignees.take() {
            Some(t) => t,
            None => Vec::new(),
        };
        assert(table_view(table@) =~= assignee_table(*old(solution_ctx)));
        bind_in(&mut table, &solution_ctx.routes[route_index].route, job);
        solution_ctx.state.assignees = Some(table);
    }

    /// Rebuilds every binding from what the routes hold.
    pub fn accept_solution_state(&self, solution_ctx: &mut SolutionContext)
        ensures
            final(solution_ctx).routes == old(solution_ctx).routes,
            final(solution_ctx).required == old(solution_ctx).required,
            final(solution_ctx).ignored == old(solution_ctx).ignored,
            final(solution_ctx).state.sequence_groups == old(solution_ctx).state.sequence_groups,
            final(solution_ctx).state.sync_groups == old(solution_ctx).state.sync_groups,
            final(solution_ctx).state.affinities == old(solution_ctx).state.affinities,
            final(solution_ctx).state.affinity_groups == old(solution_ctx).state.affinity_groups,
            final(solution_ctx).state.assignees is Some,
            assignee_table(*final(solution_ctx)) == rebind(routed_jobs(old(solution_ctx).routes@)),
            keys_unique(assignee_table(*final(solution_ctx))),
    {
        let mut table: Vec<(String, usize)> = Vec::new();
        let routes = &solution_ctx.routes;
        let mut i: usize = 0;
        assert(routed_jobs(routes@.subrange(0, 0)) =~= Seq::<(Route, Job)>::empty());
        while i < routes.len()
            invariant
                0 <= i <= routes.len(),
                table_view(table@) == rebind(routed_jobs(routes@.subrange(0, i as int))),
            decreases routes.len() - i,
        {
            let route = &routes[i].route;
            let acts = &route.activities;
            let ghost done = routed_jobs(routes@.subrange(0, i as int));
            let ghost r = *route;
            let mut j: usize = 0;
            assert(activity_jobs(acts@.subrange(0, 0)) =~= Seq::<Job>::empty());
            assert(done + crate::solution::paired_with(r, activity_jobs(acts@.subrange(0, 0)))
                =~= done);
            while j < acts.len()
                invariant
                    0 <= j <= acts.len(),
                    acts == &route.activities,
                    r == *route,
                    table_view(table@) == rebind(
                        done + crate::solution::paired_with(
                            r,
                            activity_jobs(acts@.subrange(0, j as int)),
                        ),
                    ),
                decreases acts.len() - j,
            {
                let ghost before = done + crate::solution::paired_with(
                    r,
                    activity_jobs(acts@.subrange(0, j as int)),
                );
                assert(acts@.subrange(0, j as int + 1).drop_last() =~= acts@.subrange(0, j as int));
                if let Some(job) = &acts[j].job {
                    let ghost after = done + crate::solution::paired_with(
                        r,
                        activity_jobs(acts@.subrange(0, j as int + 1)),
                    );
                    assert(after =~= before.push((r, *job)));
                    assert(after.drop_last() =~= before);
                    assert(after.last() == (r, *job));
                    bind_in(&mut table, route, job);
                } else {
                    assert(activity_jobs(acts@.subrange(0, j as int + 1)) =~= activity_jobs(
                        acts@.subrange(0, j as int),
                    ));
                    assert(done + crate::solution::paired_with(
                        r,
                        activity_jobs(acts@.subrange(0, j as int + 1)),
                    ) =~= before);
                }
                j = j + 1;
            }
            assert(acts@.subrange(0, j as int) =~= acts@);
            assert(routes@.subrange(0, i as int + 1).drop_last() =~= routes@.subrange(0, i as int));
            assert(routes@.subrange(0, i as int + 1).last() == routes@[i as int]);
            i = i + 1;
        }
        assert(routes@.subrange(0, i as int) =~= routes@);
        proof {
            lemma_rebind_unique(routed_jobs(routes@));
        }
        solution_ctx.state.assignees = Some(table);
    }
}

} // verus!
