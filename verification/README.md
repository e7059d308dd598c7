# image_processor

RGBA image filters with machine-checked contracts, and a command-line host
that runs them as dynamically loaded plugins.

- `src/` is the library, verified with Verus:
  - `rgba` — buffer layout of an RGBA8 image (`pixel_index`, `rgba_len`);
  - `mirror` — in-place reflection across either or both axes, its
    specification `mirrored`, and the laws it obeys (reflecting twice undoes
    it, both axes is a half turn, no axis changes nothing);
  - `blur` — in-place inverse-square weighted blur, its specification
    `blurred`, the plugin's status codes and request checks, and the laws it
    obeys (a single-colour image and radius 0 are left unchanged);
  - `params` — the trusted boundary to `std::str::from_utf8` and `serde_json`.
- `app/` is the host program (argument parsing, image files, plugin loading)
  and the C entry points of the two filters.
- `tests/` runs the library on concrete images.
