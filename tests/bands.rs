use pathtracer::bands::{partition_bands, pixel_offset, rows_per_band, Band};

#[test]
fn rows_per_band_divides_height() {
    assert_eq!(rows_per_band(400, 4), 100);
    assert_eq!(rows_per_band(400, 3), 133);
}

#[test]
fn rows_per_band_never_zero() {
    assert_eq!(rows_per_band(5, 8), 1);
    assert_eq!(rows_per_band(0, 4), 1);
    assert_eq!(rows_per_band(7, 0), 7);
}

#[test]
fn partition_even_split() {
    let bands = partition_bands(400, 4);
    assert_eq!(
        bands,
        vec![
            Band { top: 0, rows: 100 },
            Band { top: 100, rows: 100 },
            Band { top: 200, rows: 100 },
            Band { top: 300, rows: 100 },
        ]
    );
}

#[test]
fn partition_remainder_gets_own_band() {
    let bands = partition_bands(400, 3);
    assert_eq!(
        bands,
        vec![
            Band { top: 0, rows: 133 },
            Band { top: 133, rows: 133 },
            Band { top: 266, rows: 133 },
            Band { top: 399, rows: 1 },
        ]
    );
}

#[test]
fn partition_more_threads_than_rows() {
    let bands = partition_bands(5, 8);
    assert_eq!(bands.len(), 5);
    for (i, b) in bands.iter().enumerate() {
        assert_eq!(*b, Band { top: i, rows: 1 });
    }
}

#[test]
fn partition_empty_image() {
    assert!(partition_bands(0, 4).is_empty());
}

#[test]
fn every_row_written_exactly_once_for_any_thread_count() {
    for height in [0usize, 1, 7, 64, 400, 401] {
        for threads in 0usize..20 {
            let bands = partition_bands(height, threads);
            let mut seen = vec![0u32; height];
            for b in &bands {
                assert!(b.rows > 0);
                for y in b.top..b.top + b.rows {
                    seen[y] += 1;
                }
            }
            assert!(seen.iter().all(|&n| n == 1), "height {height} threads {threads}");
        }
    }
}

#[test]
fn band_spans_tile_the_buffer() {
    let width = 640;
    let bands = partition_bands(400, 6);
    let mut next = 0;
    for b in &bands {
        let (start, end) = b.span(width);
        assert_eq!(start, next);
        assert_eq!(end - start, b.rows * width * 3);
        next = end;
    }
    assert_eq!(next, 640 * 400 * 3);
}

#[test]
fn span_of_band() {
    assert_eq!(Band { top: 2, rows: 3 }.span(4), (24, 60));
}

#[test]
fn pixel_offsets_row_major() {
    assert_eq!(pixel_offset(0, 0, 4, 3), 0);
    assert_eq!(pixel_offset(1, 2, 4, 3), 27);
    assert_eq!(pixel_offset(3, 2, 4, 3), 33);
}
