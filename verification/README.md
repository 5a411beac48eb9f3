# lazydict

The native half of a camera dictionary for Android: it decodes camera frames,
finds the characters in a picture of printed text, cuts Chinese text into
words and checks the signature of its own package.

- `src/` is the library, written in Verus: every function carries a contract
  (`requires` / `ensures`) over mathematical models of its inputs and results,
  and Verus proves the code against it. Besides the functions, each module
  states and proves the laws the library keeps (for instance that a quarter
  turn undone by three quarters gives the image back, that contour tracking
  meets each edge point exactly once, that a filled rectangle reads back as
  its colour).
- `tests/` runs the library on concrete inputs.
- `app/` is the Android glue: the JNI entry points, bitmap locking, file and
  zip reading, and the few computations in floating point.

The calls into `base64`, `sha1` and `jieba-rs` go through small trusted
wrappers in `src/signature.rs` and `src/words.rs`, whose doc comments say what
their contracts assume of those crates.
