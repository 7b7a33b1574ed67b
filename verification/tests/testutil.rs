use mpc::group::Gej;
use mpc::scalar::Scalar;
use mpc::testutil::{random_sharing_batch, rxg_inputs, transpose, zero_sharing_batch};
use mpc::vss::{interpolate_shares_at_zero, random_scalars, vshare_is_valid, VShare};

#[test]
fn transpose_swaps_rows_and_columns() {
    let mat = vec![vec![1u8, 2, 3], vec![4, 5, 6]];
    assert_eq!(transpose(mat), vec![vec![1, 4], vec![2, 5], vec![3, 6]]);
    let single = vec![vec![String::from("a")]];
    assert_eq!(transpose(single), vec![vec![String::from("a")]]);
    let empty_rows: Vec<Vec<u8>> = vec![vec![], vec![]];
    assert_eq!(transpose(empty_rows), Vec::<Vec<u8>>::new());
    let square = vec![vec![1u8, 2], vec![3, 4]];
    assert_eq!(transpose(transpose(square.clone())), square);
}

fn column(by_player: &[Vec<VShare>], slot: usize) -> Vec<VShare> {
    by_player.iter().map(|shares| shares[slot]).collect()
}

#[test]
fn random_sharings_are_sharings_of_their_secrets() {
    let n = 6;
    let k = 3;
    let b = 2;
    let h = Gej::new_random();
    let indices = random_scalars(n);
    let (by_player, commitments, secrets, decommitments) =
        random_sharing_batch(n, k, b, &indices, &h);
    assert_eq!(by_player.len(), n);
    assert_eq!(commitments.len(), b);
    assert_eq!(secrets.len(), b);
    assert_eq!(decommitments.len(), b);
    for (player, shares) in by_player.iter().enumerate() {
        assert_eq!(shares.len(), b);
        for (share, commitment) in shares.iter().zip(commitments.iter()) {
            assert_eq!(share.share.index, indices[player]);
            assert!(vshare_is_valid(share, commitment, &h));
        }
    }
    for slot in 0..b {
        assert_eq!(commitments[slot].len(), k);
        let shares = column(&by_player, slot);
        assert_eq!(
            interpolate_shares_at_zero(&shares[..k]),
            (secrets[slot], decommitments[slot])
        );
    }
}

#[test]
fn zero_sharings_are_sharings_of_zero() {
    let n = 5;
    let k = 2;
    let b = 3;
    let h = Gej::new_random();
    let indices = random_scalars(n);
    let (by_player, commitments) = zero_sharing_batch(n, k, b, &indices, &h);
    assert_eq!(by_player.len(), n);
    assert_eq!(commitments.len(), b);
    for slot in 0..b {
        let shares = column(&by_player, slot);
        for share in shares.iter() {
            assert!(vshare_is_valid(share, &commitments[slot], &h));
        }
        assert_eq!(interpolate_shares_at_zero(&shares[1..3]).0, Scalar::zero());
    }
}

#[test]
fn coefficient_sharings_have_their_shape() {
    let k = 3;
    let b = 2;
    let h = Gej::new_random();
    let indices = random_scalars(4);
    let (inputs, commitments) = rxg_inputs(k, b, &indices, &h);
    assert_eq!(inputs.len(), 4);
    assert_eq!(commitments.len(), b);
    for (player, slots) in inputs.iter().enumerate() {
        assert_eq!(slots.len(), b);
        for (slot, coefficients) in slots.iter().enumerate() {
            assert_eq!(coefficients.len(), k);
            for (c, share) in coefficients.iter().enumerate() {
                assert_eq!(share.share.index, indices[player]);
                assert!(vshare_is_valid(share, &commitments[slot][c], &h));
            }
        }
    }
    for slot in commitments.iter() {
        assert_eq!(slot.len(), k);
        for commitment in slot.iter() {
            assert_eq!(commitment.len(), k);
        }
    }
}
