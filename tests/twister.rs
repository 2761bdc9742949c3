use block_modes::mt19937::MT19937;

#[test]
fn first_outputs_for_reference_seed() {
    let mut rng = MT19937::new(5489);
    assert_eq!(rng.next(), Some(3499211612));
    assert_eq!(rng.next(), Some(581869302));
    assert_eq!(rng.next(), Some(3890346734));
}

#[test]
fn ten_thousandth_output() {
    let mut rng = MT19937::new(5489);
    let mut last = None;
    for _ in 0..10000 {
        last = rng.next();
    }
    assert_eq!(last, Some(4123659995));
}

#[test]
fn seeds_differ() {
    let mut a = MT19937::new(1);
    let mut b = MT19937::new(2);
    assert_ne!(a.next(), b.next());
}
