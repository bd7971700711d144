pub mod arithmetic;
pub mod axes;
pub mod beside;
pub mod binary32;
pub mod bounds;
pub mod choices;
pub mod closeness;
pub mod cluster;
pub mod conversion;
pub mod coverage;
pub mod directions;
pub mod error;
pub mod exact;
pub mod faces;
pub mod fitting;
pub mod grid;
pub mod images;
pub mod interior;
pub mod laws;
pub mod moments;
pub mod nearest;
pub mod options;
pub mod parting;
pub mod queue;
pub mod refinement;
pub mod rotation;
pub mod rounding;
pub mod sampling;
pub mod scatter;
pub mod second_axis;
pub mod triangle;
pub mod value;
pub mod vector;
