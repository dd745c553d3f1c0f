use arq::loss::{LossModel, LOSS_SCALE};

fn kept(link: &LossModel, n: usize) -> usize {
    (0..n).filter(|_| !link.drops()).count()
}

#[test]
fn lossless_link_keeps_everything() {
    let link = LossModel::lossless();
    assert_eq!(link.loss(), 0);
    assert_eq!(kept(&link, 100), 100);
    assert_eq!(kept(&LossModel::new(0), 100), 100);
}

#[test]
fn full_loss_drops_everything() {
    let link = LossModel::new(LOSS_SCALE);
    assert_eq!(kept(&link, 100), 0);
}

#[test]
fn partial_loss_keeps_about_the_expected_share() {
    let link = LossModel::new(LOSS_SCALE / 4);
    let n = kept(&link, 10_000);
    assert!(n > 7_000, "kept {n}");
    assert!(n < 8_000, "kept {n}");
}
