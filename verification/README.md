# megaparse

Turns the output of `mega-ls -l -r --time-format=ISO6081_WITH_TIME` into one
`path,size,date time` record per file, the shape that `rclone lsf --files-only -R --csv
--format pst` prints, so that the two listings can be sorted and compared.

- `src/` is the verified library: reading numbers and trimming text (`number`, `text`),
  checking the target file name and the row limit (`target`), counting rows with
  progress reports (`rows`) and converting the listing line by line (`listing`).
- `app/` is the GTK window that picks the files, reads and writes them and shows
  progress; it hands each line to the library.
