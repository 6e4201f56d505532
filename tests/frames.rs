use aobench::dispatch::{row_bands, Assignment, Dispatcher};
use aobench::pixel::Pixel;
use aobench::ppm::encode_ppm;
use aobench::shade::{render, render_line, SubSample};

/// A deterministic stand-in for the sub-samples of a traced frame.
fn samples(width: u32, height: u32, nsub: u32) -> Vec<SubSample> {
    let k = (nsub * nsub) as usize;
    let mut s = Vec::new();
    for y in 0..height as usize {
        for x in 0..width as usize {
            for j in 0..k {
                let v = (x * 7 + y * 13 + j * 5) % 80;
                s.push(if v >= 65 { None } else { Some(v as u32) });
            }
        }
    }
    s
}

fn line_of(all: &[SubSample], width: u32, nsub: u32, y: u32) -> Vec<SubSample> {
    let n = (width * nsub * nsub) as usize;
    all[y as usize * n..(y as usize + 1) * n].to_vec()
}

/// Runs the dispatcher with `workers` simulated workers; `pick` chooses which
/// busy worker finishes next.
fn render_dispatched(width: u32, height: u32, nsub: u32, workers: usize, pick: impl Fn(usize, usize) -> usize) -> Vec<Pixel> {
    let all = samples(width, height, nsub);
    let mut d = Dispatcher::new(width, height);
    let mut busy: Vec<(usize, u32)> = Vec::new();
    for w in 0..workers {
        if let Assignment::Render(line) = d.next_assignment() {
            busy.push((w, line));
        }
    }
    let mut step = 0;
    while !d.is_complete() {
        let idx = pick(step, busy.len());
        step += 1;
        let (w, line) = busy.remove(idx);
        assert!(d.awaits(line));
        let row = render_line(width, nsub, &line_of(&all, width, nsub, line));
        match d.receive(line, row) {
            Assignment::Render(next) => busy.push((w, next)),
            Assignment::Stop => {}
        }
    }
    assert!(busy.is_empty());
    d.merge()
}

#[test]
fn parallel_matches_serial() {
    let (w, h, n) = (24u32, 17u32, 2u32);
    let serial = render(w, h, n, &samples(w, h, n));
    for workers in [1usize, 2, 4, 8] {
        let in_order = render_dispatched(w, h, n, workers, |_, _| 0);
        let last_first = render_dispatched(w, h, n, workers, |_, len| len - 1);
        let scattered = render_dispatched(w, h, n, workers, |step, len| (step * 5 + 3) % len);
        assert_eq!(in_order.len(), (w * h) as usize);
        assert_eq!(in_order, serial);
        assert_eq!(last_first, serial);
        assert_eq!(scattered, serial);
    }
}

#[test]
fn full_size_parallel_matches_serial() {
    let (w, h, n) = (256u32, 256u32, 2u32);
    let serial = render(w, h, n, &samples(w, h, n));
    let parallel = render_dispatched(w, h, n, 4, |step, len| (step * 3 + 1) % len);
    assert_eq!(parallel.len(), 65536);
    assert_eq!(parallel, serial);
}

#[test]
fn dispatcher_hands_out_rows_in_order_then_stops() {
    let mut d = Dispatcher::new(5, 2);
    assert_eq!(d.next_assignment(), Assignment::Render(0));
    assert_eq!(d.next_assignment(), Assignment::Render(1));
    assert_eq!(d.next_assignment(), Assignment::Stop);
    assert!(d.awaits(1));
    assert!(!d.awaits(2));
    assert!(!d.is_complete());
    let row = vec![Pixel::new(9, 9, 9); 5];
    assert_eq!(d.receive(1, row.clone()), Assignment::Stop);
    assert!(!d.awaits(1));
    assert!(d.awaits(0));
    assert_eq!(d.receive(0, vec![Pixel::new(1, 1, 1); 5]), Assignment::Stop);
    assert!(d.is_complete());
    let frame = d.merge();
    assert_eq!(frame[..5], vec![Pixel::new(1, 1, 1); 5][..]);
    assert_eq!(frame[5..], row[..]);
}

#[test]
fn dispatcher_of_empty_frame_is_complete() {
    let mut d = Dispatcher::new(4, 0);
    assert!(d.is_complete());
    assert_eq!(d.next_assignment(), Assignment::Stop);
    assert!(d.merge().is_empty());
}

#[test]
fn ppm_of_default_frame() {
    let (w, h, n) = (256u32, 256u32, 2u32);
    let mut all = samples(w, h, n);
    // the top rows see only sky
    for s in all.iter_mut().take((w * 10 * n * n) as usize) {
        *s = None;
    }
    let frame = render(w, h, n, &all);
    let bytes = encode_ppm(w, h, &frame);
    let header = b"P6\n256 256\n255\n";
    assert_eq!(&bytes[..header.len()], &header[..]);
    assert_eq!(bytes.len(), header.len() + 196608);
    for px in bytes[header.len()..].chunks(3) {
        assert_eq!(px[0], px[1]);
        assert_eq!(px[1], px[2]);
    }
    for px in bytes[header.len()..header.len() + (w * 10 * 3) as usize].chunks(3) {
        assert_eq!(px, &[0, 0, 0]);
    }
}

#[test]
fn ppm_header_sizes() {
    assert_eq!(encode_ppm(0, 0, &Vec::new()), b"P6\n0 0\n255\n".to_vec());
    let px = vec![Pixel::new(1, 2, 3), Pixel::new(250, 0, 7)];
    let mut expected = b"P6\n2 1\n255\n".to_vec();
    expected.extend([1, 2, 3, 250, 0, 7]);
    assert_eq!(encode_ppm(2, 1, &px), expected);
    let big = encode_ppm(4294967295, 10, &Vec::new());
    assert_eq!(big, b"P6\n4294967295 10\n255\n".to_vec());
}

#[test]
fn row_bands_last_takes_remainder() {
    assert_eq!(row_bands(10, 3), vec![(0, 3), (3, 6), (6, 10)]);
    assert_eq!(row_bands(256, 8)[7], (224, 256));
    assert_eq!(row_bands(7, 1), vec![(0, 7)]);
    assert_eq!(row_bands(2, 4), vec![(0, 0), (0, 0), (0, 0), (0, 2)]);
    assert_eq!(row_bands(0, 2), vec![(0, 0), (0, 0)]);
}

#[test]
fn banded_render_matches_serial() {
    let (w, h, n) = (16u32, 37u32, 2u32);
    let all = samples(w, h, n);
    let serial = render(w, h, n, &all);
    for workers in [1u32, 2, 4, 8] {
        let mut frame = Vec::new();
        for (start, end) in row_bands(h, workers) {
            let per_row = (w * n * n) as usize;
            let band = all[start as usize * per_row..end as usize * per_row].to_vec();
            frame.extend(render(w, end - start, n, &band));
        }
        assert_eq!(frame, serial);
    }
}
