use rank_algo::group::section_rank;
use rank_algo::rank::effective_chunk_size;
use rank_algo::window::ts_rank_chunk;
use rank_algo::{ta_rank, ta_ts_rank, Context, Error, Num, OrderedFloat};
use std::cmp::Ordering;

fn nums(v: &[f64]) -> Vec<Num> {
    v.iter().map(|x| Num::from_bits(x.to_bits())).collect()
}

fn ranks(v: &[usize]) -> Vec<Option<usize>> {
    v.iter().map(|r| Some(*r)).collect()
}

fn of(v: f64) -> OrderedFloat {
    OrderedFloat::new(Num::from_bits(v.to_bits()))
}

#[test]
fn windowed_example() {
    let ctx = Context::new(1, 0, false);
    let input = nums(&[3.0, 1.0, 2.0, 5.0, 4.0]);
    let mut r = vec![None; 5];
    assert_eq!(ta_ts_rank(&ctx, &mut r, &input, 3), Ok(()));
    assert_eq!(r, ranks(&[1, 1, 2, 3, 2]));
}

#[test]
fn cross_sectional_example() {
    let ctx = Context::new(3, 0, false);
    let input = nums(&[10.0, 30.0, 20.0, 1.0, 3.0, 2.0]);
    let mut r = vec![None; 6];
    assert_eq!(ta_rank(&ctx, &mut r, &input), Ok(()));
    assert_eq!(r, ranks(&[1, 3, 2, 1, 3, 2]));
}

#[test]
fn length_mismatch_windowed() {
    let ctx = Context::new(1, 0, false);
    let input = nums(&[1.0, 2.0, 3.0, 4.0, 5.0]);
    let mut r = vec![Some(9); 4];
    assert_eq!(ta_ts_rank(&ctx, &mut r, &input, 3), Err(Error::LengthMismatch(4, 5)));
    assert_eq!(r, vec![Some(9); 4]);
}

#[test]
fn length_mismatch_cross_sectional() {
    let ctx = Context::new(3, 0, false);
    let input = nums(&[1.0, 2.0, 3.0, 4.0, 5.0]);
    let mut r = vec![Some(9); 4];
    assert_eq!(ta_rank(&ctx, &mut r, &input), Err(Error::LengthMismatch(4, 5)));
    assert_eq!(r, vec![Some(9); 4]);
}

#[test]
fn success_keeps_length() {
    let ctx = Context::new(2, 1, true);
    let input = nums(&[4.0, 2.0, 7.0, 1.0, 0.5, 3.0, 9.0]);
    let mut r = vec![None; 7];
    assert_eq!(ta_ts_rank(&ctx, &mut r, &input, 2), Ok(()));
    assert_eq!(r.len(), input.len());
    let mut r = vec![None; 7];
    assert_eq!(ta_rank(&ctx, &mut r, &input), Ok(()));
    assert_eq!(r.len(), input.len());
}

#[test]
fn unit_window_ranks_one() {
    let ctx = Context::new(1, 2, true);
    let input = nums(&[f64::NAN, f64::INFINITY, -1.0, f64::NEG_INFINITY, 3.0, 3.0]);
    let mut r = vec![None; 6];
    assert_eq!(ta_ts_rank(&ctx, &mut r, &input, 1), Ok(()));
    assert_eq!(r, ranks(&[1, 1, 1, 1, 1, 1]));
}

#[test]
fn cross_section_permutation_with_ties_and_nan() {
    let input = nums(&[2.0, f64::NAN, 2.0, f64::NEG_INFINITY, 0.0, -0.0, f64::INFINITY, 2.0]);
    let mut got = section_rank(&input);
    assert_eq!(got.len(), 8);
    got.sort();
    assert_eq!(got, vec![1, 2, 3, 4, 5, 6, 7, 8]);
}

#[test]
fn cross_section_ties_keep_group_order() {
    let input = nums(&[5.0, 5.0, 1.0, 5.0]);
    assert_eq!(section_rank(&input), vec![2, 3, 1, 4]);
    let zeros = nums(&[0.0, -0.0, 0.0]);
    assert_eq!(section_rank(&zeros), vec![1, 2, 3]);
}

#[test]
fn cross_section_with_nan_first() {
    let input = nums(&[1.0, f64::NAN, -3.0]);
    assert_eq!(section_rank(&input), vec![3, 1, 2]);
}

#[test]
fn order_spot_checks() {
    let nan = of(f64::NAN);
    let pinf = of(f64::INFINITY);
    let ninf = of(f64::NEG_INFINITY);
    let one = of(1.0);
    let two = of(2.0);
    assert_eq!(one.cmp(&nan), Ordering::Greater);
    assert_eq!(nan.cmp(&one), Ordering::Less);
    assert_eq!(nan.cmp(&nan), Ordering::Less);
    assert_eq!(pinf.cmp(&nan), Ordering::Less);
    assert_eq!(ninf.cmp(&nan), Ordering::Less);
    assert_eq!(pinf.cmp(&one), Ordering::Greater);
    assert_eq!(ninf.cmp(&one), Ordering::Less);
    assert_eq!(one.cmp(&two), Ordering::Less);
    assert_eq!(two.cmp(&one), Ordering::Greater);
    assert_eq!(of(0.0).cmp(&of(-0.0)), Ordering::Equal);
    assert_eq!(of(-2.5).cmp(&of(-1.5)), Ordering::Less);
    assert!(of(0.0).eq(&of(-0.0)));
    assert!(!nan.eq(&nan));
    assert!(one.eq(&one));
}

#[test]
fn order_transitive_without_infinities() {
    let vals = [of(f64::NAN), of(-7.25), of(0.0), of(1e300), of(-1e-300)];
    for a in vals.iter() {
        for b in vals.iter() {
            for c in vals.iter() {
                if a.cmp(b) == Ordering::Less && b.cmp(c) == Ordering::Less {
                    assert_eq!(a.cmp(c), Ordering::Less);
                }
            }
        }
    }
}

#[test]
fn num_classes() {
    let n = Num::from_bits(f64::NAN.to_bits());
    assert!(n.is_nan() && !n.is_finite() && !n.is_infinite());
    let i = Num::from_bits(f64::NEG_INFINITY.to_bits());
    assert!(!i.is_nan() && !i.is_finite() && i.is_infinite());
    let f = Num::from_bits(f64::MAX.to_bits());
    assert!(!f.is_nan() && f.is_finite() && !f.is_infinite());
    assert_eq!(f.bits, f64::MAX.to_bits());
}

#[test]
fn num_keys_follow_the_number_line() {
    let k = |v: f64| Num::from_bits(v.to_bits()).key_exec();
    assert_eq!(k(0.0), 0);
    assert_eq!(k(-0.0), 0);
    assert!(k(-1.0) < k(-0.5));
    assert!(k(1.0) < k(1.5));
    assert!(k(f64::NEG_INFINITY) < k(f64::MIN));
    assert!(k(f64::MAX) < k(f64::INFINITY));
    assert_eq!(k(1.0), 1.0f64.to_bits() as i64);
    assert_eq!(k(-1.0), -(1.0f64.to_bits() as i64));
}

#[test]
fn windowed_warm_up_left_unranked() {
    let ctx = Context::new(1, 2, false);
    let input = nums(&[3.0, 1.0, 2.0, 5.0, 4.0]);
    let mut r = vec![Some(7); 5];
    assert_eq!(ta_ts_rank(&ctx, &mut r, &input, 3), Ok(()));
    assert_eq!(r, vec![None, None, Some(1), Some(2), Some(2)]);
}

#[test]
fn windowed_strict_cycle_waits_for_full_window() {
    let ctx = Context::new(1, 0, true);
    let input = nums(&[3.0, 1.0, 2.0, 5.0, 4.0]);
    let mut r = vec![None; 5];
    assert_eq!(ta_ts_rank(&ctx, &mut r, &input, 3), Ok(()));
    assert_eq!(r, vec![None, None, Some(2), Some(3), Some(2)]);
}

#[test]
fn windowed_equal_values_kept_apart() {
    let ctx = Context::new(1, 0, false);
    let input = nums(&[1.0, 1.0, 1.0, 0.0]);
    let mut r = vec![None; 4];
    assert_eq!(ta_ts_rank(&ctx, &mut r, &input, 2), Ok(()));
    assert_eq!(r, ranks(&[1, 1, 1, 1]));
}

#[test]
fn windowed_nan_ranks_last_and_sorts_first() {
    let ctx = Context::new(1, 0, false);
    let input = nums(&[f64::NAN, 1.0, 2.0]);
    let mut r = vec![None; 3];
    assert_eq!(ta_ts_rank(&ctx, &mut r, &input, 3), Ok(()));
    assert_eq!(r, ranks(&[1, 2, 3]));
}

#[test]
fn windowed_chunks_rank_independently() {
    let ctx = Context::new(2, 0, false);
    let input = nums(&[3.0, 1.0, 2.0, 1.0, 2.0, 3.0]);
    let mut r = vec![None; 6];
    assert_eq!(ta_ts_rank(&ctx, &mut r, &input, 0), Ok(()));
    assert_eq!(r, ranks(&[1, 1, 2, 1, 2, 3]));
}

#[test]
fn whole_history_when_groups_below_two() {
    let ctx = Context::new(1, 0, false);
    let input = nums(&[3.0, 1.0, 2.0, 5.0, 4.0]);
    let mut r = vec![None; 5];
    assert_eq!(ta_rank(&ctx, &mut r, &input), Ok(()));
    assert_eq!(r, ranks(&[1, 1, 2, 4, 4]));
}

#[test]
fn cross_sectional_leaves_incomplete_tail() {
    let ctx = Context::new(2, 0, false);
    let input = nums(&[2.0, 1.0, -1.0, 8.0, 6.0]);
    let mut r = vec![Some(0); 5];
    assert_eq!(ta_rank(&ctx, &mut r, &input), Ok(()));
    assert_eq!(r, vec![Some(2), Some(1), Some(1), Some(2), Some(0)]);
}

#[test]
fn empty_input() {
    let ctx = Context::new(3, 0, false);
    let mut r: Vec<Option<usize>> = Vec::new();
    assert_eq!(ta_ts_rank(&ctx, &mut r, &[], 4), Ok(()));
    assert_eq!(ta_rank(&ctx, &mut r, &[]), Ok(()));
    assert!(r.is_empty());
}

#[test]
fn context_accessors() {
    let ctx = Context::new(4, 3, true);
    assert_eq!(ctx.chunk_size(10), 2);
    assert_eq!(ctx.start(2), 2);
    assert_eq!(ctx.start(10), 3);
    assert!(ctx.is_strictly_cycle());
    assert_eq!(ctx.groups(), 4);
    assert_eq!(Context::new(0, 0, false).chunk_size(10), 10);
    assert_eq!(effective_chunk_size(&ctx, 3), 1);
    assert_eq!(effective_chunk_size(&ctx, 9), 2);
}

#[test]
fn chunk_of_unit_window() {
    let ctx = Context::new(1, 1, false);
    let x = nums(&[f64::NAN, 2.0]);
    assert_eq!(ts_rank_chunk(&ctx, &x, 1), ranks(&[1, 1]));
    assert_eq!(ts_rank_chunk(&ctx, &x, 2), vec![None, Some(1)]);
}

#[test]
fn ordered_float_from_num() {
    let n = Num::from_bits(2.5f64.to_bits());
    let o: OrderedFloat = OrderedFloat::from(n);
    assert_eq!(o.value, n);
    assert_eq!(OrderedFloat::new(n).value.bits, 2.5f64.to_bits());
}

#[test]
fn cross_section_ranks_follow_value_then_group() {
    let vals = [0.5, -2.0, 7.0, 0.5, -0.0, 3.25, 0.0, -2.0, 1e9, -1e9, 7.0];
    let got = section_rank(&nums(&vals));
    let mut idx: Vec<usize> = (0..vals.len()).collect();
    idx.sort_by(|a, b| vals[*a].partial_cmp(&vals[*b]).unwrap().then(a.cmp(b)));
    let mut want = vec![0; vals.len()];
    for (place, i) in idx.iter().enumerate() {
        want[*i] = place + 1;
    }
    assert_eq!(got, want);
}

#[test]
fn windowed_rank_counts_values_below() {
    let vals = [4.0, 9.0, 1.0, 9.0, 2.0, 6.0, 6.0, 0.0, 3.0];
    let ctx = Context::new(1, 0, false);
    let mut r = vec![None; vals.len()];
    assert_eq!(ta_ts_rank(&ctx, &mut r, &nums(&vals), 0), Ok(()));
    for i in 0..vals.len() {
        let below = vals[..=i].iter().filter(|v| **v < vals[i]).count();
        assert_eq!(r[i], Some(below + 1));
    }
}

#[test]
fn windowed_repeated_values_evict_by_position() {
    let ctx = Context::new(1, 0, false);
    let mut r = vec![None; 4];
    assert_eq!(ta_ts_rank(&ctx, &mut r, &nums(&[2.0, 1.0, 1.0, 5.0]), 3), Ok(()));
    assert_eq!(r, ranks(&[1, 1, 1, 3]));
    let mut s = vec![None; 4];
    assert_eq!(ta_ts_rank(&ctx, &mut s, &nums(&[9.0, 1.0, 1.0, 5.0]), 3), Ok(()));
    assert_eq!(s, ranks(&[1, 1, 1, 3]));
}

#[test]
fn windowed_never_exceeds_periods() {
    let ctx = Context::new(1, 0, false);
    let mut r = vec![None; 6];
    let input = nums(&[1.0, 0.0, 0.0, 2.0, 3.0, 4.0]);
    assert_eq!(ta_ts_rank(&ctx, &mut r, &input, 3), Ok(()));
    assert_eq!(r, ranks(&[1, 1, 1, 3, 3, 3]));
}

#[test]
fn windowed_nans_are_evicted() {
    let ctx = Context::new(1, 0, false);
    let mut r = vec![None; 4];
    let input = nums(&[f64::NAN, f64::NAN, f64::NAN, f64::NAN]);
    assert_eq!(ta_ts_rank(&ctx, &mut r, &input, 2), Ok(()));
    assert_eq!(r, ranks(&[1, 2, 2, 2]));
}

#[test]
fn windowed_rank_depends_on_trailing_window_only() {
    let ctx = Context::new(1, 0, false);
    let a = [7.0, 3.0, 3.0, 8.0, 1.0, 3.0, 2.0, 3.0];
    let b = [0.0, -5.0, 9.0, 8.0, 1.0, 3.0, 2.0, 3.0];
    let mut ra = vec![None; 8];
    let mut rb = vec![None; 8];
    assert_eq!(ta_ts_rank(&ctx, &mut ra, &nums(&a), 4), Ok(()));
    assert_eq!(ta_ts_rank(&ctx, &mut rb, &nums(&b), 4), Ok(()));
    assert_eq!(&ra[6..], &rb[6..]);
    assert_eq!(ra[7], Some(3));
}

#[test]
fn order_chains_through_nan() {
    let nan = of(f64::NAN);
    let pinf = of(f64::INFINITY);
    let ninf = of(f64::NEG_INFINITY);
    let one = of(1.0);
    // -inf, NaN, 1.0 chains.
    assert_eq!(ninf.cmp(&nan), Ordering::Less);
    assert_eq!(nan.cmp(&one), Ordering::Less);
    assert_eq!(ninf.cmp(&one), Ordering::Less);
    // +inf, NaN, 1.0 does not: the rules of the order break it.
    assert_eq!(pinf.cmp(&nan), Ordering::Less);
    assert_eq!(pinf.cmp(&one), Ordering::Greater);
    // Nor does 1.0, +inf, NaN.
    assert_eq!(one.cmp(&pinf), Ordering::Less);
    assert_eq!(one.cmp(&nan), Ordering::Greater);
}

#[test]
fn windowed_nan_and_infinity_leave_the_window() {
    let ctx = Context::new(1, 0, false);
    let mut a = vec![None; 4];
    let mut b = vec![None; 4];
    let inf = f64::INFINITY;
    assert_eq!(ta_ts_rank(&ctx, &mut a, &nums(&[f64::NAN, 5.0, inf, inf]), 3), Ok(()));
    assert_eq!(ta_ts_rank(&ctx, &mut b, &nums(&[1.0, 5.0, inf, inf]), 3), Ok(()));
    assert_eq!(a[3], Some(2));
    assert_eq!(b[3], Some(2));
    let mut c = vec![None; 4];
    assert_eq!(ta_ts_rank(&ctx, &mut c, &nums(&[f64::NAN, 5.0, inf, 7.0]), 3), Ok(()));
    assert_eq!(c, ranks(&[1, 2, 3, 2]));
}
