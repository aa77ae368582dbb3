use brs::model::bga::{BgaEvent, BgaLayer};
use brs::render::bga::BgaProcessor;

fn event(time_us: i64, bga_id: u16, layer: BgaLayer) -> BgaEvent {
    BgaEvent { time_us, bga_id, layer }
}

#[test]
fn test_bga_processor_new() {
    let processor = BgaProcessor::new();
    assert!(!processor.has_images());
    assert_eq!(processor.image_count(), 0);
    assert_eq!(processor.base_image(), None);
    assert_eq!(processor.layer_image(), None);
    assert_eq!(processor.layer2_image(), None);
    assert_eq!(processor.poor_image(), None);
    assert!(!processor.is_poor_shown());
}

#[test]
fn test_bga_events_update() {
    let mut processor = BgaProcessor::new();

    let events = vec![
        event(1_000_000, 1, BgaLayer::Base),
        event(2_000_000, 2, BgaLayer::Base),
    ];
    processor.set_events(events);

    // Before first event
    processor.update(500_000);
    assert_eq!(processor.base_image(), None);

    // After first event
    processor.update(1_500_000);
    assert_eq!(processor.base_image(), Some(1));

    // After second event
    processor.update(2_500_000);
    assert_eq!(processor.base_image(), Some(2));
}

#[test]
fn test_poor_layer_timing() {
    let mut processor = BgaProcessor::new();
    processor.set_events(vec![event(0, 99, BgaLayer::Poor)]);
    processor.update(0);
    assert_eq!(processor.poor_image(), Some(99));

    // Trigger poor
    processor.trigger_poor(1_000_000);
    assert!(processor.is_poor_shown());

    // Still showing
    processor.update(1_100_000);
    assert!(processor.is_poor_shown());

    // Should be hidden after duration
    processor.update(1_300_000);
    assert!(!processor.is_poor_shown());
}

#[test]
fn bga_events_are_applied_in_time_order_per_layer() {
    let mut processor = BgaProcessor::default();
    processor.set_events(vec![
        event(300, 3, BgaLayer::Layer),
        event(100, 1, BgaLayer::Layer),
        event(200, 2, BgaLayer::Layer2),
        event(100, 4, BgaLayer::Layer),
    ]);
    processor.update(100);
    // both events at 100 apply, in the order they were given
    assert_eq!(processor.layer_image(), Some(4));
    assert_eq!(processor.layer2_image(), None);
    processor.update(1_000);
    assert_eq!(processor.layer_image(), Some(3));
    assert_eq!(processor.layer2_image(), Some(2));
    processor.reset();
    assert_eq!(processor.layer_image(), None);
    assert_eq!(processor.layer2_image(), None);
}

#[test]
fn poor_layer_needs_an_image_to_show() {
    let mut processor = BgaProcessor::new();
    processor.trigger_poor(10);
    assert!(!processor.is_poor_shown());
}

#[test]
fn bga_active_image_needs_a_loaded_image() {
    let mut processor = BgaProcessor::new();
    processor.set_events(vec![event(0, 3, BgaLayer::Base), event(0, 4, BgaLayer::Poor)]);
    processor.update(0);
    assert!(!processor.has_active_image());
    processor.mark_loaded(4);
    processor.mark_loaded(4);
    assert!(processor.has_images());
    assert_eq!(processor.image_count(), 1);
    assert!(!processor.has_active_image());
    processor.trigger_poor(0);
    assert!(processor.has_active_image());
    processor.reset();
    assert!(!processor.has_active_image());
    processor.mark_loaded(3);
    processor.update(0);
    assert!(processor.has_active_image());
    assert_eq!(processor.image_count(), 2);
}
