//! Polygons given by their corner points, as values to store in the index.

use vstd::prelude::*;
use crate::bounding_box::{union_of, BoundingBox};
use crate::point::Point;

verus! {

/// A polygon: an identifying number and its corner points.
#[derive(Debug)]
pub struct ConvexHull {
    pub id: usize,
    pub apexes: Vec<Point>,
}

/// A list of polygons.
#[derive(Debug)]
pub struct ConvexHulls {
    pub convex_hulls: Vec<ConvexHull>,
}

/// The box that holds just the point `p`.
pub open spec fn point_box(p: Point) -> BoundingBox {
    BoundingBox { min: p, max: p }
}

/// The boxes of the given points, in the same order.
pub open spec fn point_boxes(points: Seq<Point>) -> Seq<BoundingBox> {
    Seq::new(points.len(), |k: int| point_box(points[k]))
}

impl ConvexHull {
    /// The smallest box that holds every corner point; `None` for a
    /// polygon without points.
    pub fn bounding_box(&self) -> (r: Option<BoundingBox>)
        ensures
            match r {
                Some(b) => self.apexes@.len() > 0 && b == union_of(point_boxes(self.apexes@)),
                None => self.apexes@.len() == 0,
            },
    {
        let ghost boxes = point_boxes(self.apexes@);
        let mut envelope: Option<BoundingBox> = None;
        let mut k: usize = 0;
        while k < self.apexes.len()
            invariant
                k <= self.apexes@.len(),
                boxes == point_boxes(self.apexes@),
                match envelope {
                    Some(b) => k > 0 && b == union_of(boxes.take(k as int)),
                    None => k == 0,
                },
            decreases self.apexes@.len() - k,
        {
            let apex = self.apexes[k];
            let here = BoundingBox { min: apex, max: apex };
            proof {
                assert(boxes.take(k + 1).drop_last() =~= boxes.take(k as int));
                assert(boxes.take(k + 1).last() == here);
            }
            envelope = match envelope {
                Some(b) => Some(b.get_union(&here)),
                None => Some(here),
            };
            k += 1;
        }
        assert(boxes.take(k as int) =~= boxes);
        envelope
    }
}

} // verus!
