use jello::platform::{hit_zone, message_point, Edges, HitZone};

const WINDOW: Edges = Edges { left: 100, top: 200, right: 900, bottom: 800 };

#[test]
fn messages_hold_signed_places() {
    assert_eq!(message_point(0x0002_0001), (1, 2));
    assert_eq!(message_point(0xFFFF_FFFF), (-1, -1));
    assert_eq!(message_point(0xFFFF_FFFF_8000_7FFF), (0x7FFF, -0x8000));
}

#[test]
fn edges_can_be_taken_hold_of() {
    let at = |x, y| hit_zone(x, y, WINDOW);
    assert_eq!(at(100, 200), HitZone::TopLeft);
    assert_eq!(at(107, 207), HitZone::TopLeft);
    assert_eq!(at(899, 200), HitZone::TopRight);
    assert_eq!(at(100, 799), HitZone::BottomLeft);
    assert_eq!(at(899, 799), HitZone::BottomRight);
    assert_eq!(at(500, 207), HitZone::Top);
    assert_eq!(at(500, 792), HitZone::Bottom);
    assert_eq!(at(107, 500), HitZone::Left);
    assert_eq!(at(892, 500), HitZone::Right);
    assert_eq!(at(108, 208), HitZone::Inside);
    assert_eq!(at(891, 791), HitZone::Inside);
}

#[test]
fn small_windows_have_no_inside() {
    let tiny = Edges { left: 0, top: 0, right: 10, bottom: 10 };
    for x in 0..10 {
        for y in 0..10 {
            assert_ne!(hit_zone(x, y, tiny), HitZone::Inside);
        }
    }
    assert_eq!(hit_zone(5, 5, tiny), HitZone::TopLeft);
    assert_eq!(hit_zone(i32::MIN, i32::MAX, Edges { left: i32::MAX, top: i32::MIN, right: 0, bottom: 0 }), HitZone::BottomLeft);
}
