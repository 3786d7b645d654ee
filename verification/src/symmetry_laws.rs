//! What holds of the symmetries for every board: four quarter turns and two
//! equal reflections change nothing, and the canonical key is the same for
//! all eight images of a board.

use vstd::prelude::*;
use crate::board::{hash_of, is_board, Grid};
use crate::symmetry::{
    canonical_key, in_orbit, lemma_grid_equal, reflected_backward_diag, reflected_forward_diag,
    reflected_x, reflected_y, rotated,
};

verus! {

/// Four quarter turns bring every board back to itself.
pub proof fn lemma_four_rotations(g: Grid)
    requires
        is_board(g),
    ensures
        rotated(rotated(rotated(rotated(g)))) == g,
{
    lemma_grid_equal(rotated(rotated(rotated(rotated(g)))), g);
}

/// Each of the four reflections, applied twice, brings every board back to itself.
pub proof fn lemma_reflections_are_involutions(g: Grid)
    requires
        is_board(g),
    ensures
        reflected_x(reflected_x(g)) == g,
        reflected_y(reflected_y(g)) == g,
        reflected_forward_diag(reflected_forward_diag(g)) == g,
        reflected_backward_diag(reflected_backward_diag(g)) == g,
{
    lemma_grid_equal(reflected_x(reflected_x(g)), g);
    lemma_grid_equal(reflected_y(reflected_y(g)), g);
    lemma_grid_equal(reflected_forward_diag(reflected_forward_diag(g)), g);
    lemma_grid_equal(reflected_backward_diag(reflected_backward_diag(g)), g);
}

/// The eight images of a board after a quarter turn are the eight images of the board.
proof fn lemma_images_after_quarter_turn(g: Grid)
    requires
        is_board(g),
    ensures
        rotated(rotated(rotated(rotated(g)))) == g,
        reflected_x(rotated(g)) == reflected_backward_diag(g),
        reflected_y(rotated(g)) == reflected_forward_diag(g),
        reflected_forward_diag(rotated(g)) == reflected_x(g),
        reflected_backward_diag(rotated(g)) == reflected_y(g),
{
    lemma_grid_equal(rotated(rotated(rotated(rotated(g)))), g);
    lemma_grid_equal(reflected_x(rotated(g)), reflected_backward_diag(g));
    lemma_grid_equal(reflected_y(rotated(g)), reflected_forward_diag(g));
    lemma_grid_equal(reflected_forward_diag(rotated(g)), reflected_x(g));
    lemma_grid_equal(reflected_backward_diag(rotated(g)), reflected_y(g));
}

/// The eight images of a board after a half turn are the eight images of the board.
proof fn lemma_images_after_half_turn(g: Grid)
    requires
        is_board(g),
    ensures
        rotated(rotated(rotated(rotated(g)))) == g,
        rotated(rotated(rotated(rotated(rotated(g))))) == rotated(g),
        reflected_x(rotated(rotated(g))) == reflected_y(g),
        reflected_y(rotated(rotated(g))) == reflected_x(g),
        reflected_forward_diag(rotated(rotated(g))) == reflected_backward_diag(g),
        reflected_backward_diag(rotated(rotated(g))) == reflected_forward_diag(g),
{
    lemma_grid_equal(rotated(rotated(rotated(rotated(g)))), g);
    lemma_grid_equal(reflected_x(rotated(rotated(g))), reflected_y(g));
    lemma_grid_equal(reflected_y(rotated(rotated(g))), reflected_x(g));
    lemma_grid_equal(reflected_forward_diag(rotated(rotated(g))), reflected_backward_diag(g));
    lemma_grid_equal(reflected_backward_diag(rotated(rotated(g))), reflected_forward_diag(g));
}

/// The eight images of a board after three quarter turns are the eight images of the board.
proof fn lemma_images_after_three_quarter_turn(g: Grid)
    requires
        is_board(g),
    ensures
        rotated(rotated(rotated(rotated(g)))) == g,
        rotated(rotated(rotated(rotated(rotated(g))))) == rotated(g),
        rotated(rotated(rotated(rotated(rotated(rotated(g)))))) == rotated(rotated(g)),
        reflected_x(rotated(rotated(rotated(g)))) == reflected_forward_diag(g),
        reflected_y(rotated(rotated(rotated(g)))) == reflected_backward_diag(g),
        reflected_forward_diag(rotated(rotated(rotated(g)))) == reflected_y(g),
        reflected_backward_diag(rotated(rotated(rotated(g)))) == reflected_x(g),
{
    lemma_grid_equal(rotated(rotated(rotated(rotated(g)))), g);
    lemma_grid_equal(reflected_x(rotated(rotated(rotated(g)))), reflected_forward_diag(g));
    lemma_grid_equal(reflected_y(rotated(rotated(rotated(g)))), reflected_backward_diag(g));
    lemma_grid_equal(reflected_forward_diag(rotated(rotated(rotated(g)))), reflected_y(g));
    lemma_grid_equal(reflected_backward_diag(rotated(rotated(rotated(g)))), reflected_x(g));
}

/// The eight images of a board after mirroring top to bottom are the eight images of the board.
proof fn lemma_images_after_reflection_x(g: Grid)
    requires
        is_board(g),
    ensures
        rotated(reflected_x(g)) == reflected_forward_diag(g),
        rotated(rotated(reflected_x(g))) == reflected_y(g),
        rotated(rotated(rotated(reflected_x(g)))) == reflected_backward_diag(g),
        reflected_x(reflected_x(g)) == g,
        reflected_y(reflected_x(g)) == rotated(rotated(g)),
        reflected_forward_diag(reflected_x(g)) == rotated(g),
        reflected_backward_diag(reflected_x(g)) == rotated(rotated(rotated(g))),
{
    lemma_grid_equal(rotated(reflected_x(g)), reflected_forward_diag(g));
    lemma_grid_equal(rotated(rotated(reflected_x(g))), reflected_y(g));
    lemma_grid_equal(rotated(rotated(rotated(reflected_x(g)))), reflected_backward_diag(g));
    lemma_grid_equal(reflected_x(reflected_x(g)), g);
    lemma_grid_equal(reflected_y(reflected_x(g)), rotated(rotated(g)));
    lemma_grid_equal(reflected_forward_diag(reflected_x(g)), rotated(g));
    lemma_grid_equal(reflected_backward_diag(reflected_x(g)), rotated(rotated(rotated(g))));
}

/// The eight images of a board after mirroring left to right are the eight images of the board.
proof fn lemma_images_after_reflection_y(g: Grid)
    requires
        is_board(g),
    ensures
        rotated(reflected_y(g)) == reflected_backward_diag(g),
        rotated(rotated(reflected_y(g))) == reflected_x(g),
        rotated(rotated(rotated(reflected_y(g)))) == reflected_forward_diag(g),
        reflected_x(reflected_y(g)) == rotated(rotated(g)),
        reflected_y(reflected_y(g)) == g,
        reflected_forward_diag(reflected_y(g)) == rotated(rotated(rotated(g))),
        reflected_backward_diag(reflected_y(g)) == rotated(g),
{
    lemma_grid_equal(rotated(reflected_y(g)), reflected_backward_diag(g));
    lemma_grid_equal(rotated(rotated(reflected_y(g))), reflected_x(g));
    lemma_grid_equal(rotated(rotated(rotated(reflected_y(g)))), reflected_forward_diag(g));
    lemma_grid_equal(reflected_x(reflected_y(g)), rotated(rotated(g)));
    lemma_grid_equal(reflected_y(reflected_y(g)), g);
    lemma_grid_equal(reflected_forward_diag(reflected_y(g)), rotated(rotated(rotated(g))));
    lemma_grid_equal(reflected_backward_diag(reflected_y(g)), rotated(g));
}

/// The eight images of a board after mirroring in the forward diagonal are
/// the eight images of the board.
proof fn lemma_images_after_forward_diag(g: Grid)
    requires
        is_board(g),
    ensures
        rotated(reflected_forward_diag(g)) == reflected_y(g),
        rotated(rotated(reflected_forward_diag(g))) == reflected_backward_diag(g),
        rotated(rotated(rotated(reflected_forward_diag(g)))) == reflected_x(g),
        reflected_x(reflected_forward_diag(g)) == rotated(rotated(rotated(g))),
        reflected_y(reflected_forward_diag(g)) == rotated(g),
        reflected_forward_diag(reflected_forward_diag(g)) == g,
        reflected_backward_diag(reflected_forward_diag(g)) == rotated(rotated(g)),
{
    lemma_grid_equal(rotated(reflected_forward_diag(g)), reflected_y(g));
    lemma_grid_equal(rotated(rotated(reflected_forward_diag(g))), reflected_backward_diag(g));
    lemma_grid_equal(rotated(rotated(rotated(reflected_forward_diag(g)))), reflected_x(g));
    lemma_grid_equal(reflected_x(reflected_forward_diag(g)), rotated(rotated(rotated(g))));
    lemma_grid_equal(reflected_y(reflected_forward_diag(g)), rotated(g));
    lemma_grid_equal(reflected_forward_diag(reflected_forward_diag(g)), g);
    lemma_grid_equal(reflected_backward_diag(reflected_forward_diag(g)), rotated(rotated(g)));
}

/// The eight images of a board after mirroring in the backward diagonal are
/// the eight images of the board.
proof fn lemma_images_after_backward_diag(g: Grid)
    requires
        is_board(g),
    ensures
        rotated(reflected_backward_diag(g)) == reflected_x(g),
        rotated(rotated(reflected_backward_diag(g))) == reflected_forward_diag(g),
        rotated(rotated(rotated(reflected_backward_diag(g)))) == reflected_y(g),
        reflected_x(reflected_backward_diag(g)) == rotated(g),
        reflected_y(reflected_backward_diag(g)) == rotated(rotated(rotated(g))),
        reflected_forward_diag(reflected_backward_diag(g)) == rotated(rotated(g)),
        reflected_backward_diag(reflected_backward_diag(g)) == g,
{
    lemma_grid_equal(rotated(reflected_backward_diag(g)), reflected_x(g));
    lemma_grid_equal(rotated(rotated(reflected_backward_diag(g))), reflected_forward_diag(g));
    lemma_grid_equal(rotated(rotated(rotated(reflected_backward_diag(g)))), reflected_y(g));
    lemma_grid_equal(reflected_x(reflected_backward_diag(g)), rotated(g));
    lemma_grid_equal(reflected_y(reflected_backward_diag(g)), rotated(rotated(rotated(g))));
    lemma_grid_equal(reflected_forward_diag(reflected_backward_diag(g)), rotated(rotated(g)));
    lemma_grid_equal(reflected_backward_diag(reflected_backward_diag(g)), g);
}

/// The canonical key is the same for a board and for each of its images
/// under the eight symmetries of the square.
pub proof fn lemma_canonical_key_invariant(g: Grid)
    requires
        is_board(g),
    ensures
        canonical_key(rotated(g)) == canonical_key(g),
        canonical_key(rotated(rotated(g))) == canonical_key(g),
        canonical_key(rotated(rotated(rotated(g)))) == canonical_key(g),
        canonical_key(reflected_x(g)) == canonical_key(g),
        canonical_key(reflected_y(g)) == canonical_key(g),
        canonical_key(reflected_forward_diag(g)) == canonical_key(g),
        canonical_key(reflected_backward_diag(g)) == canonical_key(g),
{
    lemma_images_after_quarter_turn(g);
    lemma_images_after_half_turn(g);
    lemma_images_after_three_quarter_turn(g);
    lemma_images_after_reflection_x(g);
    lemma_images_after_reflection_y(g);
    lemma_images_after_forward_diag(g);
    lemma_images_after_backward_diag(g);
}

/// The canonical key of a board is the hash of one of its eight images,
/// and that image is its own canonical form: its hash is its canonical key.
pub proof fn lemma_canonical_key_attained(g: Grid)
    requires
        is_board(g),
    ensures
        exists|image: Grid| #[trigger]
            in_orbit(g, image) && hash_of(image) == canonical_key(g) && hash_of(image)
                == canonical_key(image),
{
    lemma_canonical_key_invariant(g);
    let key = canonical_key(g);
    if hash_of(g) == key {
        assert(in_orbit(g, g));
    } else if hash_of(rotated(g)) == key {
        assert(in_orbit(g, rotated(g)));
    } else if hash_of(rotated(rotated(g))) == key {
        assert(in_orbit(g, rotated(rotated(g))));
    } else if hash_of(rotated(rotated(rotated(g)))) == key {
        assert(in_orbit(g, rotated(rotated(rotated(g)))));
    } else if hash_of(reflected_x(g)) == key {
        assert(in_orbit(g, reflected_x(g)));
    } else if hash_of(reflected_y(g)) == key {
        assert(in_orbit(g, reflected_y(g)));
    } else if hash_of(reflected_forward_diag(g)) == key {
        assert(in_orbit(g, reflected_forward_diag(g)));
    } else {
        assert(in_orbit(g, reflected_backward_diag(g)));
    }
}

/// The canonical key is no greater than the hash of any image of the board.
pub proof fn lemma_canonical_key_is_least(g: Grid, image: Grid)
    requires
        is_board(g),
        in_orbit(g, image),
    ensures
        canonical_key(g) <= hash_of(image),
        canonical_key(image) == canonical_key(g),
{
    lemma_canonical_key_invariant(g);
}

} // verus!
