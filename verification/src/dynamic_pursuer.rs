//! The `DynamicPursuer` engine and its builder: the growable-list storage
//! strategy, behaving exactly as `Pathematics` does.

use vstd::prelude::*;

use crate::errors::ConfigurationError;
use crate::path_target_finder::PathTargetFinder;
use crate::pursuit::{
    lemma_validate_ok, pts_view, seg_view, seg_wf, step_core, step_spec, validate,
    validate_config, wf_config,
};
use crate::waypoint::{bounded, Waypoint};

verus! {

/// Marker for whether a builder has been given a lookahead radius.
pub trait RadiusState {

}

/// A lookahead radius has been supplied.
#[derive(Debug)]
pub struct Radius(i64);

/// No lookahead radius has been supplied yet.
#[derive(Debug)]
pub struct NoRadius;

impl RadiusState for Radius {

}

impl RadiusState for NoRadius {

}

/// The builder for the `DynamicPursuer` engine: waypoints are appended in
/// order, and a radius must be supplied before `build` becomes available; the
/// type state `E` enforces that ordering at compile time.
#[derive(Debug)]
pub struct DynamicPathBuilder<E: RadiusState> {
    radius: E,
    points: Vec<Waypoint>,
}

/// The pure pursuit calculation structure over growable-list storage: an
/// immutable path (ordered waypoints plus lookahead radius) and the mutable
/// tracking state.
#[derive(Debug)]
pub struct DynamicPursuer {
    points: Vec<Waypoint>,
    radius: i64,
    /// The segment the robot is currently targeting, updated by `step`;
    /// `None` until tracking starts.
    pub current_segment: Option<usize>,
}

impl<E: RadiusState> DynamicPathBuilder<E> {
    /// The views of the waypoints added so far, in order.
    pub closed spec fn points_view(&self) -> Seq<Seq<int>> {
        pts_view(self.points@)
    }
}

impl DynamicPathBuilder<NoRadius> {
    /// Consumes the builder and returns it with the lookahead radius set,
    /// which makes `build` available.
    pub fn with_radius(self, r: i64) -> (b: DynamicPathBuilder<Radius>)
        ensures
            b.points_view() == self.points_view(),
            b.radius_spec() == r as int,
    {
        DynamicPathBuilder { radius: Radius(r), points: self.points }
    }

    /// Consumes the builder and returns a builder with `point` added to the
    /// end of the path; order is preserved.
    pub fn with_point(self, point: Waypoint) -> (b: DynamicPathBuilder<NoRadius>)
        ensures
            b.points_view() == self.points_view().push(point@),
    {
        let ghost before = self.points@;
        let DynamicPathBuilder { radius, mut points } = self;
        points.push(point);
        proof {
            assert(pts_view(points@) =~= pts_view(before).push(point@));
        }
        DynamicPathBuilder { radius, points }
    }
}

impl DynamicPathBuilder<Radius> {
    /// The radius most recently supplied.
    pub closed spec fn radius_spec(&self) -> int {
        self.radius.0 as int
    }

    /// Replaces the lookahead radius: the last value set wins.
    pub fn with_radius(self, r: i64) -> (b: Self)
        ensures
            b.points_view() == self.points_view(),
            b.radius_spec() == r as int,
    {
        DynamicPathBuilder { radius: Radius(r), points: self.points }
    }

    /// Consumes the builder and returns a builder with `point` added to the
    /// end of the path; order is preserved and the configured radius is kept.
    pub fn with_point(self, point: Waypoint) -> (b: DynamicPathBuilder<Radius>)
        ensures
            b.points_view() == self.points_view().push(point@),
            b.radius_spec() == self.radius_spec(),
    {
        let ghost before = self.points@;
        let DynamicPathBuilder { radius, mut points } = self;
        points.push(point);
        proof {
            assert(pts_view(points@) =~= pts_view(before).push(point@));
        }
        DynamicPathBuilder { radius, points }
    }

    /// Consumes the builder and returns the engine, in the unstarted state,
    /// after checking the configuration exactly as `Pathematics` does.
    pub fn build(self) -> (res: Result<DynamicPursuer, ConfigurationError>)
        ensures
            validate_config(self.points_view(), self.radius_spec()) matches Some(e) ==> res
                == Err::<DynamicPursuer, ConfigurationError>(e),
            validate_config(self.points_view(), self.radius_spec()) is None ==> ({
                &&& res matches Ok(engine)
                &&& engine.points_view() == self.points_view()
                &&& engine.radius_spec() == self.radius_spec()
                &&& engine.segment() == None::<usize>
                &&& engine.wf()
            }),
    {
        match validate(&self.points, self.radius.0) {
            Some(e) => Err(e),
            None => {
                proof {
                    lemma_validate_ok(pts_view(self.points@), self.radius.0 as int);
                }
                Ok(
                    DynamicPursuer {
                        radius: self.radius.0,
                        current_segment: None,
                        points: self.points,
                    },
                )
            },
        }
    }
}

impl DynamicPursuer {
    /// The views of the path's waypoints, in order.
    pub closed spec fn points_view(&self) -> Seq<Seq<int>> {
        pts_view(self.points@)
    }

    /// The configured lookahead radius.
    pub closed spec fn radius_spec(&self) -> int {
        self.radius as int
    }

    /// The tracking state: the current segment, or `None` when unstarted.
    pub closed spec fn segment(&self) -> Option<usize> {
        self.current_segment
    }

    /// The common dimension of the path's waypoints.
    pub open spec fn dim(&self) -> int {
        self.points_view()[0].len() as int
    }

    /// The engine owns a valid path, and its tracking state fits the path.
    pub open spec fn wf(&self) -> bool {
        wf_config(self.points_view(), self.radius_spec()) && seg_wf(
            self.segment(),
            self.points_view().len() as int,
        )
    }

    /// Returns a new builder with no waypoints and no radius yet.
    pub fn builder() -> (b: DynamicPathBuilder<NoRadius>)
        ensures
            b.points_view() == Seq::<Seq<int>>::empty(),
    {
        let b = DynamicPathBuilder { radius: NoRadius, points: Vec::new() };
        proof {
            assert(b.points_view() =~= Seq::<Seq<int>>::empty());
        }
        b
    }

    /// The number of waypoints in the path.
    pub fn len(&self) -> (n: usize)
        ensures
            n as int == self.points_view().len(),
    {
        self.points.len()
    }

    /// The waypoint at `index`, in path order.
    pub fn point_at(&self, index: usize) -> (w: &Waypoint)
        requires
            (index as int) < self.points_view().len(),
        ensures
            w@ == self.points_view()[index as int],
    {
        &self.points[index]
    }

    /// The configured lookahead radius.
    pub fn radius(&self) -> (r: i64)
        ensures
            r as int == self.radius_spec(),
    {
        self.radius
    }

    /// Gets the next point to follow, updating the tracked segment as needed:
    /// one control tick, exactly as `step_spec` describes. The tracked
    /// segment index never decreases.
    pub fn step(&mut self, position: Waypoint) -> (target: Waypoint)
        requires
            old(self).wf(),
            position@.len() == old(self).dim(),
            position.bounded_spec(),
        ensures
            final(self).wf(),
            final(self).points_view() == old(self).points_view(),
            final(self).radius_spec() == old(self).radius_spec(),
            ({
                let (seg2, tgt) = step_spec(
                    old(self).points_view(),
                    old(self).radius_spec(),
                    seg_view(old(self).segment()),
                    position@,
                );
                seg_view(final(self).segment()) == seg2 && target@ == tgt
            }),
            target@.len() == old(self).dim(),
            bounded(target@),
            old(self).segment() matches Some(i) ==> (final(self).segment() matches Some(j)
                && i <= j),
    {
        step_core(&self.points, self.radius, &mut self.current_segment, &position)
    }
}

impl PathTargetFinder for DynamicPursuer {
    open spec fn ready(&self) -> bool {
        self.wf()
    }

    open spec fn target_dim(&self) -> int {
        self.dim()
    }

    /// Behaves exactly as `step` does: one control tick of the pursuit
    /// engine, with the same target and the same change of tracking state.
    fn get_target_point(&mut self, position: Waypoint) -> (target: Waypoint)
        ensures
            final(self).points_view() == old(self).points_view(),
            final(self).radius_spec() == old(self).radius_spec(),
            ({
                let (seg2, tgt) = step_spec(
                    old(self).points_view(),
                    old(self).radius_spec(),
                    seg_view(old(self).segment()),
                    position@,
                );
                seg_view(final(self).segment()) == seg2 && target@ == tgt
            }),
            old(self).segment() matches Some(i) ==> (final(self).segment() matches Some(j)
                && i <= j),
    {
        self.step(position)
    }
}

} // verus!
