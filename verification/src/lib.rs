pub mod columns;
pub mod encoding;
pub mod json;
pub mod metadata;
pub mod options;
pub mod prefixes;
pub mod text;
pub mod wkb;
