pub mod errors;
pub mod headings;
pub mod section_edit;
pub mod markdown;
pub mod section_coverage;
