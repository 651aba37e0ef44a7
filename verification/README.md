# course_videos

Tools that turn a course saved as folders of lesson videos into one video and a
playlist with the start time of every lesson.

- `src/` is the library, verified with Verus: lesson naming and numbering
  (`naming`), orderings (`order`), whitespace and number reading (`numbers`),
  the concat and folder lists (`lists`), the playlist (`playlist`, `timing`),
  ffmpeg arguments (`ffmpeg`), the join plans (`merge`), the re-encoding
  counter (`counter`), folder names from a saved course page (`headings`), and
  properties that tie them together (`laws`).
- `app/` is the command-line program: it reads directories, runs ffmpeg,
  `mp4`/`mp4_merge`, and hands plain values to the library. The first argument
  picks the tool: `merge` (default), `arrange`, `arrange-reencode`,
  `combine-all`, `combine-pairs`, `playlist`, `scrape`.
- `tests/` runs the library on concrete inputs.
