use rinse::pcm::{analysed, pcm_thread, set_bands, Bands, CHUNK_BINS, CHUNK_BYTES, CHUNK_FRAMES};

#[test]
fn samples_are_little_endian() {
    let bytes = [0x00, 0x00, 0x01, 0x00, 0x00, 0x01, 0xff, 0x7f, 0x00, 0x80, 0xff, 0xff];
    assert_eq!(pcm_thread(Some(&bytes)), Some(vec![0, 1, 256, 32767, -32768, -1]));
}

#[test]
fn samples_come_back_from_their_bytes() {
    let samples: Vec<i16> = (0..=u16::MAX).map(|n| n as i16).collect();
    let bytes: Vec<u8> = samples.iter().flat_map(|s| s.to_le_bytes()).collect();
    assert_eq!(pcm_thread(Some(&bytes)), Some(samples));
}

#[test]
fn byte_that_is_left_over_counts_for_nothing() {
    assert_eq!(pcm_thread(Some(&[5, 0, 9])), Some(vec![5]));
    assert_eq!(pcm_thread(Some(&[])), Some(vec![]));
}

#[test]
fn failed_read_ends_the_reader() {
    assert_eq!(pcm_thread(None), None);
}

#[test]
fn chunks_have_their_sizes() {
    assert_eq!(CHUNK_BYTES, 2 * CHUNK_FRAMES);
    assert_eq!(CHUNK_BINS, CHUNK_FRAMES / 2);
    let chunk = vec![1u8; CHUNK_BYTES];
    assert_eq!(pcm_thread(Some(&chunk)).unwrap().len(), CHUNK_FRAMES);
}

#[test]
fn missing_samples_are_silence() {
    let out = analysed(&[3, -4]);
    assert_eq!(out.len(), CHUNK_FRAMES);
    assert_eq!(&out[..4], &[3, -4, 0, 0]);
    assert!(out[2..].iter().all(|&s| s == 0));
    let long: Vec<i16> = (0..3000).collect();
    assert_eq!(analysed(&long), long[..CHUNK_FRAMES].to_vec());
}

#[test]
fn bands_have_a_bin_at_least() {
    assert_eq!(set_bands(&vec![2, 2, 3, 10]), vec![(2, 3), (2, 3), (3, 10)]);
    assert_eq!(set_bands(&vec![1000, 2000]), vec![(1000, CHUNK_BINS)]);
    assert_eq!(set_bands(&vec![7, usize::MAX]), vec![(7, CHUNK_BINS)]);
    assert_eq!(set_bands(&vec![5]), vec![]);
    assert_eq!(set_bands(&vec![]), vec![]);
}

#[test]
fn bands_of_the_whole_range_stay_inside_the_spectrum() {
    let hz = 44100.0f32 / CHUNK_FRAMES as f32;
    for n in [1usize, 2, 26, 128, 500] {
        let edges: Vec<usize> = (0..=n)
            .map(|i| (45.0f32 * (16000.0f32 / 45.0).powf(i as f32 / n as f32) / hz) as usize)
            .collect();
        let bins = set_bands(&edges);
        assert_eq!(bins.len(), n);
        for (i, &(from, to)) in bins.iter().enumerate() {
            assert!(from < to && to <= CHUNK_BINS);
            assert_eq!(to, edges[i + 1].max(edges[i] + 1));
        }
        assert_eq!((edges[0], edges[n]), (2, 743));
        assert!(edges.windows(2).all(|w| w[0] <= w[1]));
        assert_eq!(bins[0].0, 2);
        assert!(bins[n - 1].1 >= 743);
        assert!(bins.windows(2).all(|w| w[1].0 <= w[0].1));
        for bin in 2..743 {
            assert!(bins.iter().any(|&(from, to)| from <= bin && bin < to));
        }
    }
}

#[test]
fn bands_are_replaced() {
    let mut bands = Bands::new(128);
    assert_eq!((bands.n, bands.max_n, bands.bins.len()), (0, 128, 0));
    bands.resize(&vec![2, 10, 743]);
    assert_eq!((bands.n, bands.max_n), (2, 128));
    assert_eq!(bands.bins, vec![(2, 10), (10, 743)]);
    bands.resize(&vec![2, 743]);
    assert_eq!((bands.n, bands.max_n), (1, 128));
    assert_eq!(bands.bins, vec![(2, 743)]);
    bands.resize(&vec![2]);
    assert_eq!((bands.n, bands.bins.len()), (0, 0));
}

#[test]
fn bands_are_refitted_only_where_the_number_changes() {
    let mut bands = Bands::new(3);
    assert_eq!(bands.refit(80, 24), Some(3));
    bands.resize(&vec![2, 10, 20, 743]);
    assert_eq!(bands.n, 3);
    assert_eq!(bands.refit(80, 24), None);
    assert_eq!(bands.refit(10, 6), Some(2));
    bands.resize(&vec![2, 10, 743]);
    assert_eq!(bands.refit(10, 6), None);
    assert_eq!(bands.refit(9, 6), None);
    assert_eq!(bands.refit(80, 5), None);
    assert_eq!(bands.refit(80, 6), Some(3));
}
