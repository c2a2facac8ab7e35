use circuit_lab::debug_tools::{DebugStruct, MAX_AVG_N};
use circuit_lab::devices::{DeviceStats, DeviceType, XInputInclude};
use circuit_lab::get_error;
use circuit_lab::image_analysis::{ManyHist, RGBA};
use circuit_lab::ui::{ButtonResult, TextBoxResult, WindowInfo};

#[test]
fn get_error_explains_the_missing_backend() {
    assert_eq!(get_error(), "Windows version has not been implemented");
}

#[test]
fn defaults_are_zero() {
    let w = WindowInfo::default();
    assert_eq!(w, WindowInfo { x: 0, y: 0, w: 0, h: 0 });
    let b = ButtonResult::default();
    assert!(!b.in_rect && !b.lclicked);
    assert_eq!(b.rect, [0, 0, 0, 0]);
    let d = DeviceStats::default();
    assert_eq!((d.number_of_mice, d.number_of_keyboards, d.number_of_joysticks), (0, 0, 0));
    let t = TextBoxResult { text_buffer: String::from("v"), active: true, cursor: 1 };
    assert!(t.active && t.cursor == t.text_buffer.len());
}

#[test]
fn device_types_compare() {
    assert!(DeviceType::Joysticks(XInputInclude::True) != DeviceType::Joysticks(XInputInclude::False));
    assert!(DeviceType::Mice == DeviceType::Mice);
}

#[test]
fn many_hist_starts_empty() {
    let h = ManyHist::new();
    assert!(h.vertical_histogram_rm_bkg.is_empty());
    assert!(h.arr_horizontal_histogram_rm_bkg_ch2.is_empty());
    assert!(h.counts_horizontal_color_vec_ch2.is_empty());
    let p = RGBA { b: 1, g: 2, r: 3, a: 4 };
    assert!(p == RGBA { b: 1, g: 2, r: 3, a: 4 });
}

#[test]
fn debug_struct_records_and_resets_frames() {
    let mut d = DebugStruct::new();
    assert_eq!(d.count, 0);
    assert_eq!(d.durations, 0);
    d.record_sample(4, 100, 90);
    d.record_sample(4, 50, 40);
    assert_eq!(d.count, 2);
    assert_eq!(d.count_per_frame, 2);
    assert_eq!(d.durations, 150);
    assert_eq!(d.durations_per_frame[4 % MAX_AVG_N].count, 2);
    assert_eq!(d.durations_per_frame[4 % MAX_AVG_N].duration, 130);
    d.reset_frame(4);
    assert_eq!(d.count_per_frame, 0);
    assert_eq!(d.durations_per_frame[1].count, 0);
    assert_eq!(d.durations_per_frame[1].duration, 0);
    assert_eq!(d.count, 2);
    assert_eq!(d.durations, 150);
}

fn add(x: f32, y: f32) -> f32 {
    x + y
}

#[test]
fn debugging_test1() {
    let x = 10.0;
    let start = std::time::Instant::now();
    add(x, 12.0);
    let elapsed = start.elapsed().as_nanos();
    let mut d = DebugStruct::new();
    d.record_sample(0, elapsed, elapsed);
    println!("Debug timeit : {:?}ns", d.durations);
    assert_eq!(d.count, 1);
}

#[test]
fn debugging_test2() {
    let x = 10.0;
    let start = std::time::Instant::now();
    let a = add(x, 12.0);
    let elapsed = start.elapsed().as_nanos();
    let mut d = DebugStruct::new();
    d.record_sample(0, elapsed, elapsed);
    println!("Debug timeit : {:?}ns {}", d.durations, a);
    assert_eq!(d.durations_per_frame[0].count, 1);
}
