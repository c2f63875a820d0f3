pub mod keys;
pub mod pixels;
pub mod geometry;
pub mod spatial;
pub mod clusters;
pub mod gaps;
pub mod sampling;
pub mod state;
pub mod tally;
pub mod axes;
pub mod contours;
pub mod fonts;
pub mod syntax;
pub mod history;
pub mod editing;
pub mod morphology;
pub mod subset;
pub mod closing;
pub mod extent;
pub mod markdown;
pub mod editor;
pub mod shortcuts;
