use cubic_bezier::{Bezier, Continuity, CurveError, Direction, Handle, Planar, Validity};

#[derive(Clone, Copy, Debug, PartialEq)]
struct Pt {
    x: f64,
    y: f64,
}

fn pt(x: f64, y: f64) -> Pt {
    Pt { x, y }
}

impl Planar for Pt {
    type Scalar = f64;

    fn add_spec(self, other: Self) -> Self {
        self.sum(&other)
    }

    fn sub_spec(self, other: Self) -> Self {
        self.difference(&other)
    }

    fn scale_spec(self, factor: f64) -> Self {
        self.scaled(&factor)
    }

    fn ratio_spec(self, numerator: usize, denominator: usize) -> Self {
        self.scaled_ratio(numerator, denominator)
    }

    fn complement_spec(t: f64) -> f64 {
        Self::complement(&t)
    }

    fn whole_part_spec(time: f64) -> Option<usize> {
        Self::whole_part(&time)
    }

    fn fractional_part_spec(time: f64) -> f64 {
        Self::fractional_part(&time)
    }

    fn sum(&self, other: &Self) -> Self {
        pt(self.x + other.x, self.y + other.y)
    }

    fn difference(&self, other: &Self) -> Self {
        pt(self.x - other.x, self.y - other.y)
    }

    fn scaled(&self, factor: &f64) -> Self {
        pt(self.x * factor, self.y * factor)
    }

    fn scaled_ratio(&self, numerator: usize, denominator: usize) -> Self {
        let f = numerator as f64 / denominator as f64;
        pt(self.x * f, self.y * f)
    }

    fn complement(t: &f64) -> f64 {
        1.0 - t
    }

    fn whole_part(time: &f64) -> Option<usize> {
        if time.is_finite() && *time >= 0.0 && *time < usize::MAX as f64 {
            Some(time.floor() as usize)
        } else {
            None
        }
    }

    fn fractional_part(time: &f64) -> f64 {
        time - time.floor()
    }
}

fn close(a: &Pt, b: &Pt) -> bool {
    (a.x - b.x).abs() < 0.0001 && (a.y - b.y).abs() < 0.0001
}

fn two_mirrored(detail: usize) -> Bezier<Pt> {
    let mut bezier = Bezier::new(detail, 2);
    bezier.push(Handle::mirrored(pt(-1.0, -1.0), pt(0.0, 0.0)));
    bezier.push(Handle::mirrored(pt(5.0, -1.0), pt(6.0, 0.0)));
    bezier
}

#[test]
fn handle_operations_do_not_panic() {
    let mut bezier = Bezier::new(2, 10);
    let handle = Handle::mirrored(pt(0.0, 0.0), pt(1.0, 1.0));

    assert!(bezier.insert(0, handle.clone()).is_ok());
    bezier.push(handle.clone());
    assert!(bezier.knot_insert(0.5).is_ok());
    assert!(bezier.drain(0..1).is_ok());
    assert!(bezier.splice(0..0, vec![handle.clone(), handle.clone()]).is_ok());
}

#[test]
fn remove_from_empty_curve() {
    let mut bezier = Bezier::<Pt>::new(2, 10);
    assert_eq!(bezier.remove(0).err(), Some(CurveError::EmptyCollection));
}

#[test]
fn detached_handle_does_not_generate_points() {
    let mut bezier = Bezier::<Pt>::new(2, 10);

    let detached = Handle::detached(pt(0.0, 0.0), pt(1.0, 1.0), Direction::Forward);
    let mirror = Handle::mirrored(pt(2.0, 3.0), pt(2.0, 4.0));

    bezier.push(detached);
    bezier.push(mirror);

    // The only segment starts at a handle detached forward, so it is not drawn.
    assert!(bezier.calculate().len() == 0);
}

#[test]
fn knot_insert_result_is_same() {
    let mut bezier_two = Bezier::new(20, 2);
    let mut bezier_three = Bezier::new(10, 3);
    assert!(bezier_two
        .splice(
            0..0,
            vec![
                Handle::mirrored(pt(0.0, 0.0), pt(1.0, 1.0)),
                Handle::mirrored(pt(4.0, 1.0), pt(5.0, 0.0)),
            ],
        )
        .is_ok());
    assert!(bezier_three
        .splice(
            0..0,
            vec![
                Handle::mirrored(pt(0.0, 0.0), pt(1.0, 1.0)),
                Handle::mirrored(pt(4.0, 1.0), pt(5.0, 0.0)),
            ],
        )
        .is_ok());
    let points_no_knot = bezier_two.calculate().to_owned();

    assert!(bezier_three.knot_insert(0.5).is_ok());
    let points_knot = bezier_three.calculate().to_owned();

    let epsilon = 0.0001;
    assert_eq!(points_knot.len(), points_no_knot.len());
    for i in 0..points_knot.len() {
        assert!((points_knot[i].x - points_no_knot[i].x).abs() < epsilon);
        assert!((points_knot[i].y - points_no_knot[i].y).abs() < epsilon);
    }
}

#[test]
fn two_mirrored_handles_give_one_segment_of_samples() {
    let mut bezier = two_mirrored(100);
    let points = bezier.calculate();
    assert_eq!(points.len(), 100);
    assert_eq!(points[0], pt(0.0, 0.0));
}

#[test]
fn samples_follow_the_power_basis() {
    // P0 = (0,0), P1 = (1,1), P2 = (5,-1), P3 = (6,0); at t = 1/2 the cubic is
    // (P0 + 3 P1 + 3 P2 + P3) / 8 = (3, 0).
    let mut bezier = two_mirrored(2);
    let points = bezier.calculate().to_owned();
    assert_eq!(points.len(), 2);
    assert!(close(&points[0], &pt(0.0, 0.0)));
    assert!(close(&points[1], &pt(3.0, 0.0)));
}

#[test]
fn calculate_twice_is_identical() {
    let mut bezier = two_mirrored(17);
    bezier.push(Handle::new(pt(7.0, 3.0), pt(8.0, 2.0), pt(9.0, 1.0)));
    let first = bezier.calculate().to_owned();
    let second = bezier.calculate().to_owned();
    assert_eq!(first, second);
    assert_eq!(first.len(), 34);
}

#[test]
fn detached_segments_are_left_out_of_the_buffer() {
    let mut bezier = Bezier::new(5, 4);
    bezier.push(Handle::mirrored(pt(0.0, 0.0), pt(1.0, 0.0)));
    bezier.push(Handle::detached(pt(2.0, 0.0), pt(3.0, 0.0), Direction::Backward));
    bezier.push(Handle::mirrored(pt(4.0, 0.0), pt(5.0, 0.0)));
    bezier.push(Handle::detached(pt(6.0, 0.0), pt(7.0, 0.0), Direction::Both));
    // Segments 0 and 2 are empty; segment 1 alone is drawn.
    assert_eq!(bezier.calculate().len(), 5);
    assert!(close(&bezier.calculate()[0], &pt(3.0, 0.0)));
}

#[test]
fn detaching_an_edited_handle_shrinks_the_buffer() {
    let mut bezier = two_mirrored(10);
    bezier.push(Handle::mirrored(pt(7.0, 1.0), pt(8.0, 2.0)));
    assert_eq!(bezier.calculate().len(), 20);
    bezier.get_handle_mut(1).unwrap().continuity = Continuity::Detached(Direction::Backward);
    assert_eq!(bezier.calculate().len(), 10);
    bezier.get_handle_mut(1).unwrap().continuity = Continuity::Mirrored;
    assert_eq!(bezier.calculate().len(), 20);
}

#[test]
fn mutation_triggers_recompute() {
    let mut bezier = two_mirrored(100);
    let before = bezier.calculate().to_owned();
    assert_eq!(before.len(), 100);
    bezier.get_handle_mut(0).unwrap().position.y += 2.0;
    assert_eq!(bezier.validity(0), Ok(Validity::Invalidated));
    let after = bezier.calculate().to_owned();
    assert_eq!(after.len(), 100);
    assert_ne!(before, after);
    assert_eq!(after[0], pt(0.0, 2.0));
}

#[test]
fn untouched_segments_keep_their_samples() {
    let mut bezier = two_mirrored(8);
    bezier.push(Handle::mirrored(pt(7.0, 1.0), pt(8.0, 2.0)));
    bezier.push(Handle::mirrored(pt(9.0, 3.0), pt(10.0, 4.0)));
    let before = bezier.calculate().to_owned();
    bezier.get_handle_mut(3).unwrap().position.x += 1.0;
    assert_eq!(bezier.validity(0), Ok(Validity::Valid));
    assert_eq!(bezier.validity(2), Ok(Validity::Invalidated));
    let after = bezier.calculate().to_owned();
    assert_eq!(after.len(), 24);
    assert_eq!(before[0..16], after[0..16]);
    assert_ne!(before[16..24], after[16..24]);
}

#[test]
fn remove_out_of_range_and_in_range() {
    let mut bezier = two_mirrored(4);
    assert_eq!(bezier.remove(2).err(), Some(CurveError::IndexOutOfRange));
    assert_eq!(bezier.calculate().len(), 4);
    let removed = bezier.remove(1).unwrap();
    assert_eq!(removed.position, pt(6.0, 0.0));
    assert_eq!(bezier.handles().len(), 1);
    assert_eq!(bezier.validity(0), Ok(Validity::Invalidated));
    assert_eq!(bezier.calculate().len(), 0);
}

#[test]
fn insert_checks_its_index() {
    let mut bezier = two_mirrored(4);
    let h = Handle::new(pt(1.0, 1.0), pt(2.0, 2.0), pt(3.0, 3.0));
    assert_eq!(bezier.insert(3, h), Err(CurveError::IndexOutOfRange));
    assert_eq!(bezier.calculate().len(), 4);
    assert_eq!(bezier.insert(1, h), Ok(()));
    assert_eq!(bezier.validity(0), Ok(Validity::Invalidated));
    assert_eq!(bezier.validity(1), Ok(Validity::Uninitialized));
    assert_eq!(bezier.calculate().len(), 8);
}

#[test]
fn ranges_are_checked() {
    let mut bezier = two_mirrored(4);
    assert_eq!(bezier.drain(1..3), Err(CurveError::IndexOutOfRange));
    assert_eq!(bezier.drain(2..1), Err(CurveError::IndexOutOfRange));
    assert_eq!(bezier.splice(0..3, vec![]), Err(CurveError::IndexOutOfRange));
    assert_eq!(bezier.handles().len(), 2);
    assert_eq!(bezier.splice(1..2, vec![]), Ok(()));
    assert_eq!(bezier.handles().len(), 1);
}

#[test]
fn lookups_are_checked() {
    let mut bezier = two_mirrored(4);
    assert_eq!(bezier.get_handle(1).unwrap().position, pt(6.0, 0.0));
    assert_eq!(bezier.get_handle(2).err(), Some(CurveError::IndexOutOfRange));
    assert_eq!(bezier.get_handle_mut(5).err(), Some(CurveError::IndexOutOfRange));
    assert_eq!(bezier.validity(2), Err(CurveError::IndexOutOfRange));
}

#[test]
fn knot_time_is_checked() {
    let mut bezier = two_mirrored(4);
    assert_eq!(bezier.knot_insert(-1.0), Err(CurveError::InvalidTime));
    assert_eq!(bezier.knot_insert(1.5), Err(CurveError::IndexOutOfRange));
    assert_eq!(bezier.knot_insert_at(1, 0.5), Err(CurveError::IndexOutOfRange));
    assert_eq!(bezier.handles().len(), 2);
}

#[test]
fn knot_insert_splits_by_de_casteljau() {
    let mut bezier = Bezier::new(4, 2);
    bezier.push(Handle::new(pt(0.0, 0.0), pt(0.0, 0.0), pt(2.0, 0.0)));
    bezier.push(Handle::new(pt(4.0, 0.0), pt(6.0, 0.0), pt(8.0, 0.0)));
    assert_eq!(bezier.knot_insert_at(0, 0.5), Ok(()));
    let hs = bezier.handles();
    assert_eq!(hs.len(), 3);
    assert_eq!(hs[0].after, pt(1.0, 0.0));
    assert_eq!(hs[1].before, pt(2.0, 0.0));
    assert_eq!(hs[1].position, pt(3.0, 0.0));
    assert_eq!(hs[1].after, pt(4.0, 0.0));
    assert_eq!(hs[1].continuity, Continuity::Broken);
    assert_eq!(hs[2].before, pt(5.0, 0.0));
    assert_eq!(bezier.validity(1), Ok(Validity::Uninitialized));
}

#[test]
fn control_polygon_lists_four_points_per_segment() {
    let mut bezier = two_mirrored(4);
    bezier.push(Handle::new(pt(7.0, 7.0), pt(8.0, 8.0), pt(9.0, 9.0)));
    let polygon = bezier.all_part_point();
    assert_eq!(
        polygon,
        vec![
            pt(0.0, 0.0),
            pt(1.0, 1.0),
            pt(5.0, -1.0),
            pt(6.0, 0.0),
            pt(6.0, 0.0),
            pt(7.0, 1.0),
            pt(7.0, 7.0),
            pt(8.0, 8.0),
        ]
    );
}

#[test]
fn constructors_place_the_outgoing_point() {
    let m = Handle::mirrored(pt(-1.0, -1.0), pt(0.0, 0.0));
    assert_eq!(m.after, pt(1.0, 1.0));
    assert_eq!(m.continuity, Continuity::Mirrored);
    let a = Handle::aligned(pt(0.0, 0.0), pt(1.0, 2.0), 0.5);
    assert_eq!(a.after, pt(1.5, 3.0));
    assert_eq!(a.continuity, Continuity::Aligned);
    let d = Handle::detached(pt(1.0, 0.0), pt(2.0, 0.0), Direction::Both);
    assert_eq!(d.after, pt(3.0, 0.0));
    assert_eq!(d.continuity, Continuity::Detached(Direction::Both));
    assert!(d.is_cut_forward() && d.is_cut_backward());
    let b = Handle::new(pt(0.0, 0.0), pt(1.0, 0.0), pt(5.0, 5.0));
    assert_eq!(b.after, pt(5.0, 5.0));
    assert!(!b.is_cut_forward() && !b.is_cut_backward());
}

#[test]
fn push_adds_an_unsampled_segment() {
    let mut bezier = two_mirrored(3);
    assert_eq!(bezier.calculate().len(), 3);
    assert_eq!(bezier.detail(), 3);
    bezier.push(Handle::mirrored(pt(7.0, 1.0), pt(8.0, 2.0)));
    assert_eq!(bezier.validity(0), Ok(Validity::Valid));
    assert_eq!(bezier.validity(2), Ok(Validity::Uninitialized));
    assert_eq!(bezier.calculate().len(), 6);
}

#[test]
fn knot_insert_adds_one_segment_of_samples() {
    let mut bezier = two_mirrored(6);
    bezier.push(Handle::detached(pt(7.0, 1.0), pt(8.0, 2.0), Direction::Backward));
    assert_eq!(bezier.calculate().len(), 6);
    assert_eq!(bezier.knot_insert(0.25), Ok(()));
    assert_eq!(bezier.handles().len(), 4);
    assert_eq!(bezier.calculate().len(), 12);
}

#[test]
fn hundred_samples_stop_short_of_the_end() {
    let mut bezier = two_mirrored(100);
    let points = bezier.calculate().to_owned();
    assert!(close(&points[0], &pt(0.0, 0.0)));
    assert!(close(&points[50], &pt(3.0, 0.0)));
    assert!(!close(&points[99], &pt(6.0, 0.0)));
}
