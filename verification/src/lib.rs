//! Orders a collection of 64-bit perceptual fingerprints so that similar items
//! end up next to each other: a minimum spanning tree under the Hamming
//! distance, its preorder walk, and a local search that shortens the walk.

use vstd::prelude::*;

pub mod disjoint;
pub mod filesysutils;
pub mod graph;
pub mod kruskal;
pub mod perceptual;
pub mod prim;
pub mod rooted;
pub mod spanning;
pub mod tour;

verus! {

/// Whether `ext`, the bytes of a file name extension, names an image format
/// that is read: one of bmp, png, jpg, jpeg, gif, tga, tiff and ppm, in lower
/// case.
pub open spec fn is_image_ext(ext: Seq<u8>) -> bool {
    ||| ext =~= seq![98u8, 109u8, 112u8]
    ||| ext =~= seq![112u8, 110u8, 103u8]
    ||| ext =~= seq![106u8, 112u8, 103u8]
    ||| ext =~= seq![106u8, 112u8, 101u8, 103u8]
    ||| ext =~= seq![103u8, 105u8, 102u8]
    ||| ext =~= seq![116u8, 103u8, 97u8]
    ||| ext =~= seq![116u8, 105u8, 102u8, 102u8]
    ||| ext =~= seq![112u8, 112u8, 109u8]
}

/// Whether a file with the extension `ext` is taken for an image.
pub fn is_valid_image_ext(ext: &[u8]) -> (valid: bool)
    ensures
        valid == is_image_ext(ext@),
{
    if ext.len() == 3 {
        let a = ext[0];
        let b = ext[1];
        let c = ext[2];
        (a == 98 && b == 109 && c == 112) || (a == 112 && b == 110 && c == 103) || (a == 106 && b
            == 112 && c == 103) || (a == 103 && b == 105 && c == 102) || (a == 116 && b == 103
            && c == 97) || (a == 112 && b == 112 && c == 109)
    } else if ext.len() == 4 {
        let a = ext[0];
        let b = ext[1];
        let c = ext[2];
        let d = ext[3];
        (a == 106 && b == 112 && c == 101 && d == 103) || (a == 116 && b == 105 && c == 102 && d
            == 102)
    } else {
        false
    }
}

/// Identifies a group of similar images.
pub type GroupID = usize;

/// A path in the file system. Nothing in this library looks inside one.
#[verifier::external_type_specification]
#[verifier::external_body]
pub struct ExPathBuf(std::path::PathBuf);

/// The fingerprinting functions a caller can choose from.
#[derive(Copy, Clone, Debug)]
pub enum HashType {
    AHASH,
    DHASH,
    PHASH,
}

impl Default for HashType {
    fn default() -> (kind: Self)
        ensures
            kind == HashType::AHASH,
    {
        Self::AHASH
    }
}

/// The fingerprint of an image and the position of the image in the input.
#[derive(Clone, Debug)]
pub struct ImageInfo {
    pub hash: u64,
    pub image_idx: usize,
}

/// A fingerprint and the images that are similar to it.
#[derive(Clone, Debug)]
pub struct GroupInfo {
    pub hash: u64,
    pub similar_images: Vec<ImageInfo>,
}

/// An image file and its fingerprint. The position of an entry in the input
/// collection is its vertex number.
#[derive(Debug)]
pub struct ImageEntry {
    pub hash: u64,
    pub path: std::path::PathBuf,
}

/// The fingerprints of a collection of entries, in input order.
pub open spec fn fingerprints(nodes: Seq<ImageEntry>) -> Seq<u64> {
    Seq::new(nodes.len(), |i: int| nodes[i].hash)
}

/// Copies the fingerprints out of a collection of entries.
pub fn collect_fingerprints(nodes: &[ImageEntry]) -> (fps: Vec<u64>)
    ensures
        fps@ == fingerprints(nodes@),
{
    let mut fps: Vec<u64> = Vec::new();
    let mut i: usize = 0;
    while i < nodes.len()
        invariant
            i <= nodes.len(),
            fps@.len() == i,
            forall|j: int| 0 <= j < i ==> fps@[j] == nodes@[j].hash,
        decreases nodes.len() - i,
    {
        fps.push(nodes[i].hash);
        i = i + 1;
    }
    assert(fps@ =~= fingerprints(nodes@));
    fps
}

} // verus!
