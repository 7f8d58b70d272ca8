pub mod gles_guest;
