//! Layer planning: the thickness of each layer of a print.
use vstd::prelude::*;
use crate::fixed::{ceil_div, div_floor, in_range, lemma_floor_div_bracket, COORD_MAX};
use crate::geometry::BoundingBox;
use crate::settings::FloatOrVecOfFloats;
use crate::slicer::{SettingsField, SliceError};

verus! {

/// The setting that keeps a print from being planned with the first layer
/// `first` thick and the others as `uniform` says, if one does: the thickness
/// of the other layers unless it is a single positive thickness within the
/// coordinate range, and else the thickness of the first layer unless it is
/// within the coordinate range.
pub open spec fn heights_fault(first: int, uniform: FloatOrVecOfFloats) -> Option<SettingsField> {
    match uniform {
        FloatOrVecOfFloats::Float(h) => if !(0 < h <= COORD_MAX) {
            Some(SettingsField::LayerNHeight)
        } else if !in_range(first) {
            Some(SettingsField::Layer0Height)
        } else {
            None
        },
        FloatOrVecOfFloats::VecOfFLoats(_) => Some(SettingsField::LayerNHeight),
    }
}

/// Whether a print can be planned with the first layer `first` thick and the
/// others as `uniform` says.
pub open spec fn plannable(first: int, uniform: FloatOrVecOfFloats) -> bool {
    heights_fault(first, uniform) is None
}

/// The thickness of the layers above the first.
pub open spec fn uniform_height(uniform: FloatOrVecOfFloats) -> int {
    match uniform {
        FloatOrVecOfFloats::Float(h) => h as int,
        FloatOrVecOfFloats::VecOfFLoats(_) => 0,
    }
}

/// How many layers of thickness `uniform` it takes to cover what the first
/// layer leaves of `total_height`, the last one reaching the top or beyond.
pub open spec fn layers_above(total_height: int, first: int, uniform: int) -> nat
    recommends
        uniform > 0,
{
    if total_height <= first {
        0
    } else {
        ceil_div(total_height - first, uniform) as nat
    }
}

/// The planned thicknesses: the first layer, then the layers above it.
pub open spec fn planned(total_height: int, first: i64, uniform: i64) -> Seq<i64> {
    seq![first] + Seq::new(
        layers_above(total_height, first as int, uniform as int),
        |i: int| uniform,
    )
}

/// The absolute height of the top of layer `n`: the thicknesses up to and
/// including it, added up.
pub open spec fn height_of(thicknesses: Seq<i64>, n: int) -> int
    decreases n,
{
    if n <= 0 {
        thicknesses[0] as int
    } else {
        height_of(thicknesses, n - 1) + thicknesses[n]
    }
}

/// In a plan, layer `n` ends at the first thickness plus `n` uniform ones.
pub proof fn lemma_planned_height(total_height: int, first: i64, uniform: i64, n: int)
    requires
        0 <= n < planned(total_height, first, uniform).len(),
    ensures
        height_of(planned(total_height, first, uniform), n) == first + n * uniform,
    decreases n,
{
    let p = planned(total_height, first, uniform);
    if n == 0 {
        assert(p[0] == first);
    } else {
        lemma_planned_height(total_height, first, uniform, n - 1);
        assert(p[n] == uniform);
        assert(first + (n - 1) * uniform + uniform == first + n * uniform) by (nonlinear_arith);
    }
}

/// With a positive uniform thickness, the layers of a plan end at strictly
/// increasing heights.
pub proof fn lemma_heights_increase(total_height: int, first: i64, uniform: i64, m: int, n: int)
    requires
        uniform > 0,
        0 <= m < n < planned(total_height, first, uniform).len(),
    ensures
        height_of(planned(total_height, first, uniform), m) < height_of(
            planned(total_height, first, uniform),
            n,
        ),
{
    lemma_planned_height(total_height, first, uniform, m);
    lemma_planned_height(total_height, first, uniform, n);
    assert(m * uniform < n * uniform) by (nonlinear_arith)
        requires
            m < n,
            uniform > 0,
    ;
}

/// The last layer of a plan ends at the top of the mesh or above it, and by
/// less than one uniform thickness above it unless the first layer alone
/// already covers the mesh.
pub proof fn lemma_plan_covers(total_height: int, first: i64, uniform: i64)
    requires
        uniform > 0,
        total_height > first,
    ensures
        ({
            let k = layers_above(total_height, first as int, uniform as int) as int;
            total_height <= first + k * uniform < total_height + uniform
        }),
{
    let over = total_height - first;
    lemma_floor_div_bracket(-over, uniform as int);
    let q = (-over) / (uniform as int);
    let k = -q;
    assert(q * uniform == -(k * uniform)) by (nonlinear_arith)
        requires
            k == -q,
    ;
    assert((q + 1) * uniform == q * uniform + uniform) by (nonlinear_arith);
    assert(k > 0) by (nonlinear_arith)
        requires
            -(k * uniform) <= -over,
            over > 0,
            uniform > 0,
    ;
}

/// Every layer of a plan ends at or above the first thickness, and below the
/// top of the mesh plus one uniform thickness unless it ends at the first
/// thickness.
pub proof fn lemma_planned_height_bounds(total_height: int, first: i64, uniform: i64, n: int)
    requires
        uniform > 0,
        0 <= n < planned(total_height, first, uniform).len(),
    ensures
        first <= height_of(planned(total_height, first, uniform), n),
        height_of(planned(total_height, first, uniform), n) == first || height_of(
            planned(total_height, first, uniform),
            n,
        ) < total_height + uniform,
{
    lemma_planned_height(total_height, first, uniform, n);
    let k = layers_above(total_height, first as int, uniform as int) as int;
    assert(0 <= n * uniform <= k * uniform) by (nonlinear_arith)
        requires
            0 <= n <= k,
            uniform > 0,
    ;
    if total_height > first {
        lemma_plan_covers(total_height, first, uniform);
    }
}

/// The uniform thickness that the settings give, if a print can be planned
/// with them.
pub fn uniform_thickness(first_layer_height: i64, uniform_layer_height: &FloatOrVecOfFloats) -> (r:
    Result<i64, SliceError>)
    ensures
        match r {
            Ok(h) => h == uniform_height(*uniform_layer_height),
            Err(e) => match heights_fault(first_layer_height as int, *uniform_layer_height) {
                Some(field) => e == SliceError::InvalidSettings(field),
                None => false,
            },
        },
        r is Ok <==> plannable(first_layer_height as int, *uniform_layer_height),
{
    let uniform: i64 = match uniform_layer_height {
        FloatOrVecOfFloats::Float(h) => *h,
        FloatOrVecOfFloats::VecOfFLoats(_) => {
            return Err(SliceError::InvalidSettings(SettingsField::LayerNHeight));
        },
    };
    if uniform <= 0 || uniform > COORD_MAX {
        return Err(SliceError::InvalidSettings(SettingsField::LayerNHeight));
    }
    if first_layer_height < -COORD_MAX || first_layer_height > COORD_MAX {
        return Err(SliceError::InvalidSettings(SettingsField::Layer0Height));
    }
    Ok(uniform)
}

/// Plans the layers of a print whose extent is `bounding_box`.
///
/// The first entry is `first_layer_height`; the others are all the uniform
/// thickness, as many as it takes to reach the top. Fails with
/// `InvalidSettings`, naming the setting at fault, unless the heights are
/// [`plannable`].
pub fn plan(
    bounding_box: &BoundingBox,
    first_layer_height: i64,
    uniform_layer_height: &FloatOrVecOfFloats,
) -> (r: Result<Vec<i64>, SliceError>)
    ensures
        match r {
            Ok(heights) => heights@ == planned(
                bounding_box.z_max - bounding_box.z_min,
                first_layer_height,
                uniform_height(*uniform_layer_height) as i64,
            ),
            Err(e) => match heights_fault(first_layer_height as int, *uniform_layer_height) {
                Some(field) => e == SliceError::InvalidSettings(field),
                None => false,
            },
        },
        r is Ok <==> plannable(first_layer_height as int, *uniform_layer_height),
{
    let uniform: i64 = match uniform_thickness(first_layer_height, uniform_layer_height) {
        Ok(h) => h,
        Err(e) => {
            return Err(e);
        },
    };
    let total: i128 = bounding_box.z_max as i128 - bounding_box.z_min as i128;
    let over: i128 = total - first_layer_height as i128;
    let count: i128 = if over <= 0 {
        0
    } else {
        let q: i128 = div_floor(-over, uniform as i128);
        proof {
            lemma_floor_div_bracket(-(over as int), uniform as int);
            assert(-over <= q < 0) by (nonlinear_arith)
                requires
                    q * uniform <= -over < (q + 1) * uniform,
                    uniform >= 1,
                    over > 0,
            ;
        }
        -q
    };
    let mut heights: Vec<i64> = Vec::new();
    heights.push(first_layer_height);
    let mut k: i128 = 0;
    while k < count
        invariant
            0 <= k <= count,
            heights@.len() == k + 1,
            heights@[0] == first_layer_height,
            forall|i: int| 1 <= i < heights@.len() ==> heights@[i] == uniform,
        decreases count - k,
    {
        heights.push(uniform);
        k = k + 1;
    }
    assert(heights@ =~= planned(total as int, first_layer_height, uniform));
    Ok(heights)
}

} // verus!
