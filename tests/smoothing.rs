use colors_transform::{Color, Rgb};
use hsl_smooth::grid::{Image, Pixel, Rgba};
use hsl_smooth::neighbors::{get_neighbor_coordinates, GridError};
use hsl_smooth::pass::{
    is_settled, neighbor_summary, pass_summaries, resolve_pixel, smoothing_pass,
    NeighborSummary, Verdict,
};
use hsl_smooth::pipeline::{Pipeline, PipelineError};

fn px(r: u8, g: u8, b: u8) -> Pixel {
    Pixel { r, g, b }
}

fn hsl_verdict(own: Pixel, s: NeighborSummary) -> Verdict {
    let n = s.count as f32;
    let o = Rgb::from(own.r as f32, own.g as f32, own.b as f32).to_hsl();
    let a = Rgb::from(s.r_sum as f32 / n, s.g_sum as f32 / n, s.b_sum as f32 / n).to_hsl();
    if (o.get_hue() - a.get_hue()).abs() > 20.0
        || (o.get_saturation() - a.get_saturation()).abs() > 20.0
        || (o.get_lightness() - a.get_lightness()).abs() > 20.0
    {
        let rgb = a.to_rgb();
        Verdict::Replace(px(rgb.get_red() as u8, rgb.get_green() as u8, rgb.get_blue() as u8))
    } else {
        Verdict::Keep
    }
}

fn verdicts_for(img: &Image) -> Vec<Verdict> {
    let sums = pass_summaries(img);
    let mut out = Vec::new();
    for (i, s) in sums.iter().enumerate() {
        let own = img.pixels[i];
        if is_settled(own, *s) {
            out.push(Verdict::Keep);
        } else {
            out.push(hsl_verdict(own, *s));
        }
    }
    out
}

fn three_by_three() -> Image {
    let black = px(0, 0, 0);
    let mut pixels = vec![black; 9];
    pixels[4] = px(128, 128, 128);
    Image::from_pixels(3, 3, pixels).unwrap()
}

#[test]
fn neighbors_interior_in_order() {
    let v = get_neighbor_coordinates(1, 1, 3, 3).unwrap();
    assert_eq!(v, vec![(0, 1), (2, 1), (1, 0), (1, 2)]);
}

#[test]
fn neighbors_corner_and_edge_counts() {
    assert_eq!(get_neighbor_coordinates(0, 0, 4, 3).unwrap(), vec![(1, 0), (0, 1)]);
    assert_eq!(get_neighbor_coordinates(3, 2, 4, 3).unwrap(), vec![(2, 2), (3, 1)]);
    assert_eq!(get_neighbor_coordinates(2, 0, 4, 3).unwrap().len(), 3);
    assert_eq!(get_neighbor_coordinates(0, 1, 4, 3).unwrap().len(), 3);
    assert_eq!(get_neighbor_coordinates(1, 1, 4, 3).unwrap().len(), 4);
}

#[test]
fn neighbors_total_is_twice_adjacent_pairs() {
    let (w, h) = (5u32, 4u32);
    let mut total = 0;
    for y in 0..h {
        for x in 0..w {
            total += get_neighbor_coordinates(x, y, w, h).unwrap().len();
        }
    }
    let pairs = ((w - 1) * h + w * (h - 1)) as usize;
    assert_eq!(total, 2 * pairs);
}

#[test]
fn neighbors_single_pixel_has_none() {
    assert_eq!(get_neighbor_coordinates(0, 0, 1, 1).unwrap(), vec![]);
}

#[test]
fn neighbors_invalid_coordinate() {
    assert_eq!(get_neighbor_coordinates(0, 0, 0, 3), Err(GridError::InvalidCoordinate));
    assert_eq!(get_neighbor_coordinates(0, 0, 3, 0), Err(GridError::InvalidCoordinate));
    assert_eq!(get_neighbor_coordinates(3, 0, 3, 3), Err(GridError::InvalidCoordinate));
    assert_eq!(get_neighbor_coordinates(0, 5, 3, 3), Err(GridError::InvalidCoordinate));
}

#[test]
fn image_construction() {
    assert!(Image::from_pixels(0, 1, vec![]).is_none());
    assert!(Image::from_pixels(2, 2, vec![px(1, 2, 3); 3]).is_none());
    assert!(Image::filled(0, 4, px(0, 0, 0)).is_none());
    let mut img = Image::filled(3, 2, px(9, 9, 9)).unwrap();
    assert_eq!(img.pixels.len(), 6);
    img.set_pixel(2, 1, px(1, 2, 3));
    assert_eq!(img.get_pixel(2, 1), px(1, 2, 3));
    assert_eq!(img.pixels[5], px(1, 2, 3));
    assert_eq!(img.get_pixel(0, 1), px(9, 9, 9));
}

#[test]
fn summary_sums_neighbors() {
    let img = Image::from_pixels(
        3,
        2,
        vec![px(10, 0, 1), px(20, 5, 2), px(30, 0, 3), px(40, 7, 4), px(50, 0, 5), px(60, 9, 6)],
    )
    .unwrap();
    let s = neighbor_summary(&img, 1, 0);
    assert_eq!(s, NeighborSummary { r_sum: 10 + 30 + 50, g_sum: 0, b_sum: 1 + 3 + 5, count: 3 });
    let c = neighbor_summary(&img, 0, 1);
    assert_eq!(c, NeighborSummary { r_sum: 50 + 10, g_sum: 0, b_sum: 5 + 1, count: 2 });
}

#[test]
fn settled_rules() {
    let own = px(10, 20, 30);
    let none = NeighborSummary { r_sum: 0, g_sum: 0, b_sum: 0, count: 0 };
    assert!(is_settled(own, none));
    let same = NeighborSummary { r_sum: 30, g_sum: 60, b_sum: 90, count: 3 };
    assert!(is_settled(own, same));
    let other = NeighborSummary { r_sum: 31, g_sum: 60, b_sum: 90, count: 3 };
    assert!(!is_settled(own, other));
    let red = px(255, 0, 0);
    assert_eq!(resolve_pixel(own, none, Verdict::Replace(red)), own);
    assert_eq!(resolve_pixel(own, other, Verdict::Replace(red)), red);
    assert_eq!(resolve_pixel(own, other, Verdict::Keep), own);
}

#[test]
fn single_pixel_image_is_kept() {
    let img = Image::from_pixels(1, 1, vec![px(200, 10, 10)]).unwrap();
    let out = smoothing_pass(&img, &vec![Verdict::Replace(px(0, 0, 0))]);
    assert_eq!(out.pixels, vec![px(200, 10, 10)]);
}

#[test]
fn uniform_image_is_unchanged() {
    let img = Image::filled(4, 3, px(70, 130, 180)).unwrap();
    let verdicts = vec![Verdict::Replace(px(1, 1, 1)); 12];
    let out = smoothing_pass(&img, &verdicts);
    assert_eq!(out.pixels, img.pixels);
    let out2 = smoothing_pass(&img, &verdicts_for(&img));
    assert_eq!(out2.pixels, img.pixels);
}

#[test]
fn pass_reads_only_the_snapshot() {
    let img = Image::from_pixels(
        3,
        2,
        vec![px(255, 0, 0), px(0, 0, 255), px(0, 255, 0), px(0, 0, 0), px(255, 255, 255), px(9, 9, 9)],
    )
    .unwrap();
    let verdicts = verdicts_for(&img);
    let out = smoothing_pass(&img, &verdicts);
    let sums = pass_summaries(&img);
    let mut reverse = vec![px(0, 0, 0); 6];
    for i in (0..6).rev() {
        reverse[i] = resolve_pixel(img.pixels[i], sums[i], verdicts[i]);
    }
    assert_eq!(out.pixels, reverse);
}

#[test]
fn end_to_end_center_turns_black() {
    let img = three_by_three();
    let verdicts = verdicts_for(&img);
    let out = smoothing_pass(&img, &verdicts);
    assert_eq!(out.get_pixel(1, 1), px(0, 0, 0));
    for i in 0..9 {
        assert_eq!(out.pixels[i], px(0, 0, 0));
    }
}

#[test]
fn pass_count_bounds() {
    let img = three_by_three();
    assert_eq!(Pipeline::new(three_by_three(), 0).err(), Some(PipelineError::InvalidPassCount));
    assert_eq!(Pipeline::new(three_by_three(), 33).err(), Some(PipelineError::InvalidPassCount));
    assert_eq!(Pipeline::new(three_by_three(), -4).err(), Some(PipelineError::InvalidPassCount));
    let p = Pipeline::new(img, 32).unwrap();
    assert_eq!(p.passes_total(), 32);
    assert_eq!(p.passes_done(), 0);
    assert!(!p.is_done());
    assert!(Pipeline::new(three_by_three(), 1).is_ok());
}

#[test]
fn one_more_pass_equals_longer_run() {
    let input = Image::from_pixels(
        3,
        3,
        vec![
            px(200, 30, 30), px(10, 10, 10), px(0, 0, 250),
            px(90, 200, 90), px(255, 255, 255), px(30, 30, 30),
            px(5, 120, 240), px(240, 240, 0), px(100, 0, 100),
        ],
    )
    .unwrap();
    let mut two = Pipeline::new(Image::from_pixels(3, 3, input.pixels.clone()).unwrap(), 2).unwrap();
    let mut one = Pipeline::new(input, 1).unwrap();
    while !two.is_done() {
        let v = verdicts_for(two.current());
        two.advance(&v);
    }
    let v = verdicts_for(one.current());
    one.advance(&v);
    assert!(one.is_done());
    let after_one = Image::from_pixels(3, 3, one.current().pixels.clone()).unwrap();
    let mut again = Pipeline::new(after_one, 1).unwrap();
    let v = verdicts_for(again.current());
    again.advance(&v);
    assert_eq!(again.current().pixels, two.current().pixels);
    assert_eq!(two.passes_done(), 2);
}

#[test]
fn composite_geometry() {
    let input = Image::from_pixels(2, 2, vec![px(1, 2, 3), px(4, 5, 6), px(7, 8, 9), px(10, 11, 12)]).unwrap();
    let mut p = Pipeline::new(input, 1).unwrap();
    p.advance(&vec![Verdict::Replace(px(0, 0, 0)); 4]);
    let out = p.compose();
    assert_eq!(out.width, 4);
    assert_eq!(out.height, 2);
    assert_eq!(out.pixels.len(), 8);
    assert_eq!(out.pixels[0], Rgba { r: 1, g: 2, b: 3, a: 255 });
    assert_eq!(out.pixels[1], Rgba { r: 4, g: 5, b: 6, a: 255 });
    assert_eq!(out.pixels[4], Rgba { r: 7, g: 8, b: 9, a: 255 });
    assert_eq!(out.pixels[5], Rgba { r: 10, g: 11, b: 12, a: 255 });
    for y in 0..2usize {
        for x in 0..2usize {
            let right = out.pixels[y * 4 + x + 2];
            let cur = p.current().get_pixel(x as u32, y as u32);
            assert_eq!(right, Rgba { r: cur.r, g: cur.g, b: cur.b, a: 255 });
        }
    }
}

#[test]
fn hsl_round_trip_within_one() {
    let mut r = 0u32;
    while r <= 255 {
        let mut g = 0u32;
        while g <= 255 {
            let mut b = 0u32;
            while b <= 255 {
                let back = Rgb::from(r as f32, g as f32, b as f32).to_hsl().to_rgb();
                let got = [back.get_red(), back.get_green(), back.get_blue()];
                for (c, want) in got.iter().zip([r, g, b]) {
                    assert!((c.round() - want as f32).abs() <= 1.0, "{} {} {}", r, g, b);
                }
                b += 15;
            }
            g += 15;
        }
        r += 15;
    }
}
