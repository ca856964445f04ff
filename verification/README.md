# animator

Slideshows and keyframed animations rendered to video.

- `src/` is the core, with machine-checked proofs of its contracts: the normalized layout of slides and gaps
  (`layout`), the timing options of each state, the interpolation IDs (`ids`), the
  flattening of nested canvas drawings and the IDs they pass on (`canvas_tree`,
  `id_index`), the gluing of temporal elements of consecutive slides into tracks
  (`glue`, with its laws in `glue_laws`), the keyframes of animated values
  (`keyframes`), the reading of ffprobe's reports (`probe`), the text handed to
  LaTeX and ffmpeg (`text`), and the frames of a video, the pixels a blit touches
  and the pixels that fingerprint a drawn image (`frames`).
- `app/` is the renderer around it: geometry, colours and easing in floating point,
  shapes (geo, marching-squares, tiny-skia), images, video and audio through ffmpeg,
  a file cache, and an example slideshow in `main`.
- `tests/` exercises the library on concrete values.
