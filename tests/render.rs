use pathtracer::bands::Band;
use pathtracer::render::{accumulate, fill_band, to_display, total_rays};
use std::cell::Cell;

#[test]
fn fill_band_writes_each_pixel_once() {
    let band = Band { top: 3, rows: 2 };
    let width = 4;
    let mut buf = vec![0u32; 2 * 4 * 3];
    let calls = Cell::new(0u32);
    fill_band(&mut buf, band, width, |x: usize, y: usize| {
        calls.set(calls.get() + 1);
        (x as u32, y as u32, 100 + (x + y) as u32)
    });
    assert_eq!(calls.get(), 8);
    for y in 0..2 {
        for x in 0..4 {
            let o = (y * width + x) * 3;
            assert_eq!(buf[o], x as u32);
            assert_eq!(buf[o + 1], (y + 3) as u32);
            assert_eq!(buf[o + 2], 100 + (x + y + 3) as u32);
        }
    }
}

#[test]
fn fill_empty_band() {
    let mut buf: Vec<u8> = vec![];
    fill_band(&mut buf, Band { top: 0, rows: 0 }, 10, |_x: usize, _y: usize| (1u8, 2u8, 3u8));
    assert!(buf.is_empty());
}

fn running_average(n: f32) -> impl Fn(f32, f32) -> f32 {
    move |acc: f32, frame: f32| acc * (n / (n + 1.0)) + frame * (1.0 / (n + 1.0))
}

#[test]
fn accumulating_identical_frames_keeps_value() {
    let frame = vec![0.25f32, 0.5, 0.75, 1.0, 0.0, 0.1];
    let mut accum = vec![0.0f32; 6];
    for n in 0..20 {
        accumulate(&mut accum, &frame, running_average(n as f32));
        for (a, f) in accum.iter().zip(frame.iter()) {
            assert!((a - f).abs() < 1e-5);
        }
    }
}

#[test]
fn accumulating_noisy_frames_averages() {
    let frames = [[1.0f32], [0.0], [0.5], [0.5]];
    let mut accum = vec![0.0f32];
    for (n, f) in frames.iter().enumerate() {
        accumulate(&mut accum, f, running_average(n as f32));
    }
    assert!((accum[0] - 0.5).abs() < 1e-6);
}

#[test]
fn display_bytes_follow_pitch() {
    let frame: Vec<u8> = (0..2 * 2 * 3).map(|v| v as u8).collect();
    let mut out = vec![0xAAu8; 2 * 8];
    to_display(&frame, 2, 2, 8, &mut out, |v: u8| v * 2);
    assert_eq!(&out[0..6], &[0, 2, 4, 6, 8, 10]);
    assert_eq!(&out[6..8], &[0xAA, 0xAA]);
    assert_eq!(&out[8..14], &[12, 14, 16, 18, 20, 22]);
    assert_eq!(&out[14..16], &[0xAA, 0xAA]);
}

#[test]
fn display_gamma_quantization() {
    let frame = vec![0.25f32, 1.0, 4.0];
    let mut out = vec![0u8; 3];
    to_display(&frame, 1, 1, 3, &mut out, |v: f32| (v.min(1.0).sqrt() * 255.0) as u8);
    assert_eq!(out, vec![127, 255, 255]);
}

#[test]
fn ray_total() {
    assert_eq!(total_rays(&[]), Some(0));
    assert_eq!(total_rays(&[3, 4, 5]), Some(12));
    assert_eq!(total_rays(&[u64::MAX, 0]), Some(u64::MAX));
}

#[test]
fn ray_total_overflow() {
    assert_eq!(total_rays(&[u64::MAX, 1]), None);
    assert_eq!(total_rays(&[u64::MAX / 2 + 1, u64::MAX / 2 + 1, 0]), None);
}
