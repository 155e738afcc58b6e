//! Reading and writing the ASCII form of DXF drawings: code-pair values and
//! their string codecs, the section reader, the entity folder, and extended data.
pub mod codec;
pub mod value;
pub mod stream;
pub mod reading;
pub mod header;
pub mod entities;
pub mod entity_io;
pub mod drawing;
pub mod xdata;
