pub mod anagram;
pub mod audio;
pub mod blog;
pub mod colors;
pub mod combos;
pub mod domains;
pub mod files;
pub mod html;
pub mod mapping;
pub mod nudge;
pub mod semaphore;
pub mod sets;
pub mod slack;
pub mod summary;
pub mod text;
pub mod todo;
pub mod unique;
