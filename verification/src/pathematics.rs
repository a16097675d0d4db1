//! The `Pathematics` pursuit engine and its builder.

use vstd::prelude::*;

use crate::errors::ConfigurationError;
use crate::path_target_finder::PathTargetFinder;
use crate::pursuit::{
    lemma_validate_ok, pts_view, seg_view, seg_wf, step_core, step_spec, validate,
    validate_config, wf_config,
};
use crate::waypoint::{bounded, Waypoint};

verus! {

/// Marker for whether a builder has been given a lookahead radius.
pub trait RadiusState {

}

/// A lookahead radius has been supplied.
#[derive(Debug)]
pub struct Radius(i64);

/// No lookahead radius has been supplied yet.
#[derive(Debug)]
pub struct NoRadius;

impl RadiusState for Radius {

}

impl RadiusState for NoRadius {

}

/// The builder for the `Pathematics` engine: waypoints are appended in order,
/// and a radius must be supplied before `build` becomes available; the type
/// state `E` enforces that ordering at compile time.
#[derive(Debug)]
pub struct PathBuilder<E: RadiusState> {
    radius: E,
    points: Vec<Waypoint>,
}

/// The pure pursuit calculation structure: an immutable path (ordered
/// waypoints plus lookahead radius) and the mutable tracking state.
#[derive(Debug)]
pub struct Pathematics {
    points: Vec<Waypoint>,
    radius: i64,
    /// The current segment being used to pursue, updated by `step`;
    /// `None` until tracking starts.
    pub current_segment: Option<usize>,
}

impl<E: RadiusState> PathBuilder<E> {
    /// The views of the waypoints added so far, in order.
    pub closed spec fn points_view(&self) -> Seq<Seq<int>> {
        pts_view(self.points@)
    }
}

impl PathBuilder<NoRadius> {
    /// Consumes the builder and returns it with the lookahead radius set,
    /// which makes `build` available.
    pub fn with_radius(self, r: i64) -> (b: PathBuilder<Radius>)
        ensures
            b.points_view() == self.points_view(),
            b.radius_spec() == r as int,
    {
        PathBuilder { radius: Radius(r), points: self.points }
    }

    /// Consumes the builder and returns it with `point` appended to the end
    /// of the path; order is preserved.
    pub fn with_point(self, point: Waypoint) -> (b: PathBuilder<NoRadius>)
        ensures
            b.points_view() == self.points_view().push(point@),
    {
        let ghost before = self.points@;
        let PathBuilder { radius, mut points } = self;
        points.push(point);
        proof {
            assert(pts_view(points@) =~= pts_view(before).push(point@));
        }
        PathBuilder { radius, points }
    }
}

impl PathBuilder<Radius> {
    /// The radius most recently supplied.
    pub closed spec fn radius_spec(&self) -> int {
        self.radius.0 as int
    }

    /// Replaces the lookahead radius: the last value set wins.
    pub fn with_radius(self, r: i64) -> (b: Self)
        ensures
            b.points_view() == self.points_view(),
            b.radius_spec() == r as int,
    {
        PathBuilder { radius: Radius(r), points: self.points }
    }

    /// Consumes the builder and returns it with `point` appended to the end
    /// of the path; order is preserved and the configured radius is kept.
    pub fn with_point(self, point: Waypoint) -> (b: PathBuilder<Radius>)
        ensures
            b.points_view() == self.points_view().push(point@),
            b.radius_spec() == self.radius_spec(),
    {
        let ghost before = self.points@;
        let PathBuilder { radius, mut points } = self;
        points.push(point);
        proof {
            assert(pts_view(points@) =~= pts_view(before).push(point@));
        }
        PathBuilder { radius, points }
    }

    /// Consumes the builder and returns the engine, in the unstarted state,
    /// after checking the configuration: the radius must be positive and
    /// bounded, at least two waypoints of one common nonzero dimension must
    /// be present with bounded coordinates, and no two adjacent waypoints may
    /// coincide.
    pub fn build(self) -> (res: Result<Pathematics, ConfigurationError>)
        ensures
            validate_config(self.points_view(), self.radius_spec()) matches Some(e) ==> res
                == Err::<Pathematics, ConfigurationError>(e),
            validate_config(self.points_view(), self.radius_spec()) is None ==> ({
                &&& res matches Ok(engine)
                &&& engine.points_view() == self.points_view()
                &&& engine.radius_spec() == self.radius_spec()
                &&& engine.segment() == None::<usize>
                &&& engine.wf()
            }),
    {
        match validate(&self.points, self.radius.0) {
            Some(e) => Err(e),
            None => {
                proof {
                    lemma_validate_ok(pts_view(self.points@), self.radius.0 as int);
                }
                Ok(
                    Pathematics {
                        radius: self.radius.0,
                        current_segment: None,
                        points: self.points,
                    },
                )
            },
        }
    }
}

impl Pathematics {
    /// The views of the path's waypoints, in order.
    pub closed spec fn points_view(&self) -> Seq<Seq<int>> {
        pts_view(self.points@)
    }

    /// The configured lookahead radius.
    pub closed spec fn radius_spec(&self) -> int {
        self.radius as int
    }

    /// The tracking state: the current segment, or `None` when unstarted.
    pub closed spec fn segment(&self) -> Option<usize> {
        self.current_segment
    }

    /// The common dimension of the path's waypoints.
    pub open spec fn dim(&self) -> int {
        self.points_view()[0].len() as int
    }

    /// The engine owns a valid path, and its tracking state fits the path.
    pub open spec fn wf(&self) -> bool {
        wf_config(self.points_view(), self.radius_spec()) && seg_wf(
            self.segment(),
            self.points_view().len() as int,
        )
    }

    /// The number of waypoints in the path.
    pub fn len(&self) -> (n: usize)
        ensures
            n as int == self.points_view().len(),
    {
        self.points.len()
    }

    /// The waypoint at `index`, in path order.
    pub fn point_at(&self, index: usize) -> (w: &Waypoint)
        requires
            (index as int) < self.points_view().len(),
        ensures
            w@ == self.points_view()[index as int],
    {
        &self.points[index]
    }

    /// The configured lookahead radius.
    pub fn radius(&self) -> (r: i64)
        ensures
            r as int == self.radius_spec(),
    {
        self.radius
    }

    /// Gets the next point to follow, updating the tracked segment as needed:
    /// one control tick, exactly as `step_spec` describes. The tracked
    /// segment index never decreases.
    pub fn step(&mut self, position: Waypoint) -> (target: Waypoint)
        requires
            old(self).wf(),
            position@.len() == old(self).dim(),
            position.bounded_spec(),
        ensures
            final(self).wf(),
            final(self).points_view() == old(self).points_view(),
            final(self).radius_spec() == old(self).radius_spec(),
            ({
                let (seg2, tgt) = step_spec(
                    old(self).points_view(),
                    old(self).radius_spec(),
                    seg_view(old(self).segment()),
                    position@,
                );
                seg_view(final(self).segment()) == seg2 && target@ == tgt
            }),
            target@.len() == old(self).dim(),
            bounded(target@),
            old(self).segment() matches Some(i) ==> (final(self).segment() matches Some(j)
                && i <= j),
    {
        step_core(&self.points, self.radius, &mut self.current_segment, &position)
    }
}

impl PathTargetFinder for Pathematics {
    open spec fn ready(&self) -> bool {
        self.wf()
    }

    open spec fn target_dim(&self) -> int {
        self.dim()
    }

    /// Behaves exactly as `step` does: one control tick of the pursuit
    /// engine, with the same target and the same change of tracking state.
    fn get_target_point(&mut self, position: Waypoint) -> (target: Waypoint)
        ensures
            final(self).points_view() == old(self).points_view(),
            final(self).radius_spec() == old(self).radius_spec(),
            ({
                let (seg2, tgt) = step_spec(
                    old(self).points_view(),
                    old(self).radius_spec(),
                    seg_view(old(self).segment()),
                    position@,
                );
                seg_view(final(self).segment()) == seg2 && target@ == tgt
            }),
            old(self).segment() matches Some(i) ==> (final(self).segment() matches Some(j)
                && i <= j),
    {
        self.step(position)
    }
}

/// Creates a builder for the `Pathematics` engine, with no waypoints and no
/// radius yet.
pub fn path_builder() -> (b: PathBuilder<NoRadius>)
    ensures
        b.points_view() == Seq::<Seq<int>>::empty(),
{
    let b = PathBuilder { radius: NoRadius, points: Vec::new() };
    proof {
        assert(b.points_view() =~= Seq::<Seq<int>>::empty());
    }
    b
}

} // verus!
