pub mod letters;
pub mod util;
pub mod ciphers;
pub mod vigenere;
pub mod affine;
pub mod hill;
pub mod playfair;
